//! Statements: an element, its children, its siblings and its multiplier.

pub mod attribute;
pub mod element;
pub mod snippets;

use vstd::prelude::*;
use crate::text::{
    append_all, chars_of, count_char, find_char, first_hit, index_of, lemma_count_step,
    lemma_first_hit, lemma_first_hit_unique, lemma_index_of, lemma_index_of_absent, lemma_index_of_at,
    all_digits, is_digit, unsigned_digits, indent_lines, lemma_indent_concat, lemma_indent_line_free,
    lemma_indent_newline, lemma_repeat_char_add, line_free, parse_usize, parse_usize_spec, string_of,
    repeat_char, sub_chars, Probe, byte_len, byte_offset, char_pos, char_pos_exec, is_boundary,
    lemma_byte_len_concat, lemma_byte_offset_ends, lemma_byte_offset_grows, lemma_byte_offset_order,
    lemma_byte_offset_step, lemma_char_pos, lemma_char_pos_at, lemma_char_pos_unique, utf8_width,
    lemma_count_absent, lemma_ascii_offsets,
    utf8_width_exec,
};
use crate::checker::correctly_closed;
use element::{element_defined, element_output, Element, ElementModel};

verus! {

// ---------------------------------------------------------------------------
// Splitting a statement's text
// ---------------------------------------------------------------------------

/// Looks for the `)` that closes a group whose `(` was just before the text.
pub struct ClosingProbe;

impl Probe for ClosingProbe {
    open spec fn hit(&self, s: Seq<char>, i: int) -> bool {
        s[i] == ')' && count_char(s.take(i), '(') == count_char(s.take(i), ')')
    }
}

/// Position of the `)` closing a group opened just before `s`: the first `)` before which
/// every `(` of `s` is closed; `s.len()` when there is none.
pub open spec fn closing_index(s: Seq<char>) -> int {
    first_hit(ClosingProbe, s, 0)
}

/// The multiplier given as `*n` to an element.
pub open spec fn star_multiplier(elem: Seq<char>) -> usize {
    if elem.contains('*') {
        match parse_usize_spec(elem.skip(index_of(elem, '*') + 1)) {
            Some(m) => m,
            None => 1,
        }
    } else {
        1
    }
}

/// The multiplier given as `*n` after a group; `tail` starts just before the group's `)` and
/// `n` is the length of the statement's text.
pub open spec fn group_multiplier(tail: Seq<char>, n: int) -> usize {
    let star = index_of(tail, '*');
    let plus = index_of(tail, '+');
    let star_key = if star < tail.len() { star } else { n };
    let plus_key = if plus < tail.len() { plus } else { n };
    if star_key < plus_key {
        match parse_usize_spec(tail.subrange(star + 1, plus)) {
            Some(m) => m,
            None => 1,
        }
    } else {
        1
    }
}

/// Where the pieces of a statement's text lie, as `[start, end)` ranges.
pub struct InputPieces {
    pub defined: bool,
    pub element: (int, int),
    pub child: (int, int),
    pub multiplier: usize,
    pub sibling: (int, int),
}

/// The number that the search for a group's `)` gives, for a text `s` that starts with `(`:
/// the character position of that `)` in the text after `(`, or, when there is none, the byte
/// length of that text.  Splitting uses this number as a byte offset into `s`.
pub open spec fn closing_number(s: Seq<char>) -> int {
    let c = closing_index(s.skip(1));
    if c < s.len() - 1 {
        c
    } else {
        byte_len(s.skip(1)) as int
    }
}

/// The pieces of a statement's text.
/// - Text starting with `(`: a group.  Its `)` is found by `closing_number`, a number that is
///   then used as a byte offset `k`: the group's tail starts at byte `k`, and the element or
///   the children end at byte `k + 1`.  When the first `>` comes no later than the first `+`,
///   the element runs from after `(` to that `>`, the children from there to byte `k + 1`,
///   and the siblings follow the first `+` of the tail.  Otherwise the element runs from after
///   `(` to byte `k + 1` and the siblings follow the first `+`.  Splitting is not defined where
///   `k` or `k + 1` is not a character boundary or where these bounds cross.
/// - Otherwise, when the first `>` comes no later than the first `+`, the element is the text
///   before the `>` and the children follow it; else the element is the text before the `+`
///   and the siblings follow it.
/// The element stops at its `*`, whose number is the multiplier.
///
/// The ranges are given in character positions.  For an ASCII text the closing number is the
/// position of the `)` in `s` minus one; for other texts character and byte counts differ:
/// `(é>p)+a` gives the element `é`, no children (the children end at byte 4, just after `>`)
/// and the sibling `a`.
pub open spec fn input_pieces(s: Seq<char>) -> InputPieces {
    let n = s.len() as int;
    let d = index_of(s, '>');
    let b = index_of(s, '+');
    let none = InputPieces { defined: false, element: (n, n), child: (n, n), multiplier: 1, sibling: (n, n) };
    if n > 0 && s[0] == '(' {
        let k = closing_number(s);
        if is_boundary(s, k) && is_boundary(s, k + 1) {
            let t = char_pos(s, k);
            let e = char_pos(s, k + 1);
            let tail = s.skip(t);
            let m = group_multiplier(tail, n);
            if d <= b {
                let plus = index_of(tail, '+');
                let j = if plus < tail.len() { plus + 1 } else { tail.len() as int };
                if byte_offset(s, d) <= k {
                    InputPieces { defined: true, element: (1, d), child: (d + 1, e), multiplier: m, sibling: (t + j, n) }
                } else {
                    none
                }
            } else {
                if k + 1 <= byte_offset(s, b) {
                    InputPieces { defined: true, element: (1, e), child: (n, n), multiplier: m, sibling: (b + 1, n) }
                } else {
                    none
                }
            }
        } else {
            none
        }
    } else if d <= b {
        let elem = s.take(d);
        InputPieces {
            defined: true,
            element: (0, index_of(elem, '*')),
            child: if d < n { (d + 1, n) } else { (n, n) },
            multiplier: star_multiplier(elem),
            sibling: (n, n),
        }
    } else {
        let elem = s.take(b);
        InputPieces {
            defined: true,
            element: (0, index_of(elem, '*')),
            child: (n, n),
            multiplier: star_multiplier(elem),
            sibling: (b + 1, n),
        }
    }
}

/// Where the closing number of a group falls: below the text's byte length, and, without a
/// `)`, on the last character (a boundary exactly when that character is one byte wide),
/// with the end of the text one byte further.
pub proof fn lemma_closing_number(s: Seq<char>)
    requires
        s.len() > 0,
        s[0] == '(',
    ensures
        0 <= closing_number(s) < byte_len(s),
        closing_index(s.skip(1)) >= s.len() - 1 ==> {
            let k = closing_number(s);
            &&& is_boundary(s, k) <==> utf8_width(s[s.len() - 1]) == 1
            &&& is_boundary(s, k) ==> char_pos(s, k) == s.len() - 1
            &&& is_boundary(s, k + 1)
            &&& char_pos(s, k + 1) == s.len()
        },
{
    let n = s.len() as int;
    let k = closing_number(s);
    lemma_first_hit(ClosingProbe, s.skip(1), 0);
    lemma_byte_offset_ends(s);
    lemma_byte_offset_step(s, 0);
    assert(s =~= s.take(1) + s.skip(1));
    lemma_byte_len_concat(s.take(1), s.skip(1));
    lemma_byte_offset_grows(s, 0, n);
    if closing_index(s.skip(1)) >= n - 1 {
        lemma_byte_offset_step(s, n - 1);
        lemma_char_pos_at(s, n);
        if utf8_width(s[n - 1]) == 1 {
            lemma_char_pos_at(s, n - 1);
        } else {
            lemma_byte_offset_order(s);
            assert forall|j: int| 0 <= j < n implies #[trigger] byte_offset(s, j) < k by {
                assert(byte_offset(s, j) <= byte_offset(s, n - 1));
            }
            lemma_char_pos_unique(s, k, n);
        }
    }
}

/// In `(a>b)+c` everything after the `+` is the sibling, its own `*n` included: the group has
/// the element `a`, the children `b`, the multiplier 1 and the sibling `c`, whatever `c` holds
/// (`(li>a)+p*3` gives `li`, `a`, 1 and `p*3`).  The group's own text is ASCII here, so the
/// closing number is the position of its `)` less one.
pub proof fn lemma_group_sibling_keeps_its_multiplier(a: Seq<char>, b: Seq<char>, c: Seq<char>)
    requires
        free_of_operators(a),
        free_of_operators(b),
        !a.contains(')'),
        !b.contains(')'),
        vstd::utf8::is_ascii_chars(a),
        vstd::utf8::is_ascii_chars(b),
    ensures
        input_pieces(seq!['('] + a + seq!['>'] + b + seq![')', '+'] + c).defined,
        parse_input_spec(seq!['('] + a + seq!['>'] + b + seq![')', '+'] + c) == (a, b, 1usize, c),
{
    let s = seq!['('] + a + seq!['>'] + b + seq![')', '+'] + c;
    let la = a.len() as int;
    let lb = b.len() as int;
    let n = s.len() as int;
    let j0 = la + lb + 1;
    assert(s[0] == '(');
    assert(s[1 + la] == '>');
    assert(s[2 + la + lb] == ')');
    assert(s[3 + la + lb] == '+');
    assert forall|i: int| 0 <= i < la implies s[1 + i] == a[i] && a[i] != '>' && a[i] != '+' && a[i] != ')'
        && a[i] != '(' by {
        assert(a.contains(a[i]));
    }
    assert forall|i: int| 0 <= i < lb implies s[2 + la + i] == b[i] && b[i] != '>' && b[i] != '+' && b[i]
        != ')' && b[i] != '(' by {
        assert(b.contains(b[i]));
    }
    // The first `>` and the first `+`.
    assert forall|j: int| 0 <= j < 1 + la implies s[j] != '>' by {
        if j > 0 {
            assert(s[j] == a[j - 1]);
        }
    }
    lemma_index_of_at(s, '>', 1 + la);
    assert forall|j: int| 0 <= j < 3 + la + lb implies s[j] != '+' by {
        if 0 < j < 1 + la {
            assert(s[j] == a[j - 1]);
        } else if 2 + la <= j < 2 + la + lb {
            assert(s[j] == b[j - 2 - la]);
        }
    }
    lemma_index_of_at(s, '+', 3 + la + lb);
    // The group's `)`.
    let inner = s.skip(1);
    let before = inner.take(j0);
    assert forall|j: int| 0 <= j < j0 implies inner[j] != ')' && inner[j] != '(' by {
        assert(inner[j] == s[j + 1]);
        if j < la {
            assert(s[j + 1] == a[j]);
        } else if j > la {
            assert(s[j + 1] == b[j - 1 - la]);
        }
    }
    assert(!before.contains('(')) by {
        if before.contains('(') {
            let j = choose|j: int| 0 <= j < before.len() && before[j] == '(';
            assert(inner[j] != '(');
        }
    }
    assert(!before.contains(')')) by {
        if before.contains(')') {
            let j = choose|j: int| 0 <= j < before.len() && before[j] == ')';
            assert(inner[j] != ')');
        }
    }
    lemma_count_absent(before, '(');
    lemma_count_absent(before, ')');
    assert(inner[j0] == ')');
    assert(ClosingProbe.hit(inner, j0));
    assert forall|j: int| 0 <= j < j0 implies !#[trigger] ClosingProbe.hit(inner, j) by {}
    lemma_first_hit_unique(ClosingProbe, inner, 0, j0);
    assert(closing_number(s) == j0);
    // Up to the `)` the text is ASCII, so offsets are positions.
    let pre = s.take(3 + la + lb);
    assert(vstd::utf8::is_ascii_chars(pre)) by {
        assert forall|i: int| 0 <= i < pre.len() implies (pre[i] as u32) < 128 by {
            if 0 < i < 1 + la {
                assert(pre[i] == a[i - 1]);
            } else if 2 + la <= i < 2 + la + lb {
                assert(pre[i] == b[i - 2 - la]);
            }
        }
    }
    lemma_ascii_offsets(pre);
    assert forall|q: int| 0 <= q <= 3 + la + lb implies #[trigger] byte_offset(s, q) == q by {
        assert(s.take(q) =~= pre.take(q));
        assert(byte_offset(pre, q) == q);
    }
    assert(byte_offset(s, 1 + la) == 1 + la);
    assert(byte_offset(s, j0) == j0);
    assert(byte_offset(s, j0 + 1) == j0 + 1);
    lemma_char_pos_at(s, j0);
    lemma_char_pos_at(s, j0 + 1);
    // The tail after the group: its first `+` is the one after `)`, and no number stands
    // between `)` and `+`.
    let tail = s.skip(j0);
    assert(tail[1] == ')');
    assert(tail[2] == '+');
    assert(tail[0] != '+');
    lemma_index_of_at(tail, '+', 2);
    lemma_index_of(tail, '*');
    let star = index_of(tail, '*');
    if star == 0 {
        let digits = tail.subrange(1, 2);
        assert(digits[0] == ')');
        assert(!is_digit(digits[0]));
        assert(unsigned_digits(digits) == digits);
    }
    assert(group_multiplier(tail, n) == 1usize);
    assert(s.subrange(1, 1 + la) =~= a);
    assert(s.subrange(2 + la, j0 + 1) =~= b);
    assert(s.subrange(j0 + 3, n) =~= c);
}

/// The pieces of a statement's text: element, children, multiplier and siblings.
pub open spec fn parse_input_spec(s: Seq<char>) -> (Seq<char>, Seq<char>, usize, Seq<char>) {
    let p = input_pieces(s);
    (
        s.subrange(p.element.0, p.element.1),
        s.subrange(p.child.0, p.child.1),
        p.multiplier,
        s.subrange(p.sibling.0, p.sibling.1),
    )
}

/// The ranges are ordered and inside the text, and the children and the siblings are shorter
/// than the text: building a statement goes down to ever shorter texts.
pub proof fn lemma_input_pieces(s: Seq<char>)
    ensures
        ({
            let p = input_pieces(s);
            let n = s.len() as int;
            &&& 0 <= p.element.0 <= p.element.1 <= n
            &&& 0 <= p.child.0 <= p.child.1 <= n
            &&& 0 <= p.sibling.0 <= p.sibling.1 <= n
            &&& 0 < p.child.0 || p.child.1 == p.child.0
            &&& 0 < p.sibling.0 || p.sibling.1 == p.sibling.0
        }),
        parse_input_spec(s).1.len() < s.len() || parse_input_spec(s).1.len() == 0,
        parse_input_spec(s).3.len() < s.len() || parse_input_spec(s).3.len() == 0,
{
    let n = s.len() as int;
    lemma_index_of(s, '>');
    lemma_index_of(s, '+');
    if n > 0 && s[0] == '(' {
        let k = closing_number(s);
        lemma_closing_number(s);
        lemma_char_pos(s, k);
        lemma_char_pos(s, k + 1);
        lemma_byte_offset_order(s);
        lemma_byte_offset_ends(s);
        let tail = s.skip(char_pos(s, k));
        lemma_index_of(tail, '+');
        assert(s[0] != '>' && s[0] != '+');
        let d = index_of(s, '>');
        if d < n && is_boundary(s, k) && is_boundary(s, k + 1) {
            lemma_byte_offset_step(s, d);
            assert(utf8_width('>') == 1);
        }
    } else {
        lemma_index_of(s.take(index_of(s, '>')), '*');
        lemma_index_of(s.take(index_of(s, '+')), '*');
    }
}

// ---------------------------------------------------------------------------
// Statements as values
// ---------------------------------------------------------------------------

/// What a statement holds, as values.
pub struct StatementModel {
    pub value: ElementModel,
    pub sibling: Option<Box<StatementModel>>,
    pub multiplier: usize,
}

/// The statement that `s` describes at the given level: its element with the children one
/// level lower, its siblings at the same level.
pub open spec fn build(s: Seq<char>, level: usize) -> StatementModel
    decreases s.len(),
{
    let p = parse_input_spec(s);
    proof {
        lemma_input_pieces(s);
    }
    StatementModel {
        value: ElementModel {
            value: p.0,
            childs: if p.1.len() > 0 {
                Some(Box::new(build(p.1, (level + 1) as usize)))
            } else {
                None
            },
            level,
        },
        sibling: if p.3.len() > 0 {
            Some(Box::new(build(p.3, level)))
        } else {
            None
        },
        multiplier: p.2,
    }
}

/// Building the statement of `s` is defined: every text met splits, and no level passes
/// `usize::MAX`.
pub open spec fn build_defined(s: Seq<char>, level: usize) -> bool
    decreases s.len(),
{
    let p = parse_input_spec(s);
    proof {
        lemma_input_pieces(s);
    }
    &&& input_pieces(s).defined
    &&& p.1.len() > 0 ==> level < usize::MAX && build_defined(p.1, (level + 1) as usize)
    &&& p.3.len() > 0 ==> build_defined(p.3, level)
}

/// `x`, `k` times, on separate lines.
pub open spec fn repeat_lines(x: Seq<char>, k: nat) -> Seq<char>
    decreases k,
{
    if k <= 1 {
        x
    } else {
        repeat_lines(x, (k - 1) as nat) + seq!['\n'] + x
    }
}

/// `k` copies on separate lines: one copy more adds a newline and the copy, so the copies are
/// `k` times the copy plus `k - 1` newlines, in length and in newlines.
pub proof fn lemma_repeat_lines_count(x: Seq<char>, k: nat)
    requires
        k >= 1,
    ensures
        repeat_lines(x, k + 1) == repeat_lines(x, k) + seq!['\n'] + x,
        repeat_lines(x, k).len() == k * x.len() + (k - 1),
        count_char(repeat_lines(x, k), '\n') == k * count_char(x, '\n') + (k - 1),
    decreases k,
{
    let one = seq!['\n'];
    assert(one.drop_last() =~= Seq::<char>::empty());
    assert(count_char(Seq::<char>::empty(), '\n') == 0);
    assert(count_char(one, '\n') == 1);
    if k > 1 {
        let km = (k - 1) as nat;
        lemma_repeat_lines_count(x, km);
        let r = repeat_lines(x, km);
        lemma_count_concat(r, one, '\n');
        lemma_count_concat(r + one, x, '\n');
        let c = count_char(x, '\n');
        assert(k * x.len() == km * x.len() + x.len()) by (nonlinear_arith)
            requires
                k == km + 1,
        ;
        assert(k * c == km * c + c) by (nonlinear_arith)
            requires
                k == km + 1,
        ;
        assert(repeat_lines(x, k) == r + one + x);
    } else {
        let c = count_char(x, '\n');
        assert(k * x.len() == x.len()) by (nonlinear_arith)
            requires
                k == 1,
        ;
        assert(k * c == c) by (nonlinear_arith)
            requires
                k == 1,
        ;
    }
}

/// `e*n` with a one-line element renders `n` lines (one for `n = 0`): its markup holds exactly
/// `n - 1` newlines.
pub proof fn lemma_multiplier_line_count(e: Seq<char>, digits: Seq<char>, level: usize)
    requires
        free_of_operators(e),
        !e.contains('*'),
        line_free(e),
        all_digits(digits),
        parse_usize_spec(digits) is Some,
    ensures
        ({
            let k = parse_usize_spec(digits).unwrap();
            count_char(render_statement(build(e + seq!['*'] + digits, level)), '\n') == if k == 0 {
                0
            } else {
                k - 1
            }
        }),
{
    let k = parse_usize_spec(digits).unwrap();
    let kk: nat = if k == 0 {
        1
    } else {
        k as nat
    };
    lemma_multiplier_repeats(e, digits, level);
    lemma_plain_element(e, level);
    let x = render_statement(build(e, level));
    let v = element::element_text(e);
    let tabs = repeat_char('\t', level as nat);
    element::lemma_element_parts_line_free(e);
    lemma_tabs_line_free(level as nat);
    let tag = element::element_tag(e);
    let g = attribute::group_spec(element::clean_text(v));
    let single = element::ends_with_slash(v) && !attribute::has_text_attribute(g.attributes);
    assert(element::child_lines(None, tabs) =~= Seq::<char>::empty());
    let a = if g.attributes.len() > 0 {
        attribute::group_output(g.attributes, single)
    } else if single {
        seq!['/', '>']
    } else {
        seq!['>']
    };
    assert(line_free(a));
    let head = tabs + seq!['<'] + tag + a;
    assert(line_free(head));
    assert(x == repeat_lines(render_element(build(e, level).value), 1));
    if single {
        assert(x == head);
    } else {
        assert(x =~= head + seq!['<', '/'] + tag + seq!['>']);
    }
    assert(line_free(x));
    assert(!x.contains('\n')) by {
        if x.contains('\n') {
            let j = choose|j: int| 0 <= j < x.len() && x[j] == '\n';
            assert(x[j] != '\n');
        }
    }
    lemma_count_absent(x, '\n');
    lemma_repeat_lines_count(x, kk);
}

/// The markup of a statement: its element as many times as the multiplier says (at least
/// once), one per line, then the siblings on the next line.
pub open spec fn render_statement(t: StatementModel) -> Seq<char>
    decreases t,
{
    let one = render_element(t.value);
    let copies = repeat_lines(
        one,
        if t.multiplier == 0 {
            1
        } else {
            t.multiplier as nat
        },
    );
    match t.sibling {
        Some(sb) => copies + seq!['\n'] + render_statement(*sb),
        None => copies,
    }
}

/// The markup of an element together with its children.
pub open spec fn render_element(e: ElementModel) -> Seq<char>
    decreases e,
{
    element_output(
        e.value,
        match e.childs {
            Some(c) => Some(render_statement(*c)),
            None => None,
        },
        e.level,
    )
}

/// Rendering is defined for every element of the statement, its children and its siblings.
pub open spec fn statement_tree_defined(t: StatementModel) -> bool
    decreases t,
{
    &&& element_tree_defined(t.value)
    &&& match t.sibling {
        Some(sb) => statement_tree_defined(*sb),
        None => true,
    }
}

/// Rendering is defined for the element and its children.
pub open spec fn element_tree_defined(e: ElementModel) -> bool
    decreases e,
{
    &&& element_defined(e.value)
    &&& match e.childs {
        Some(c) => statement_tree_defined(*c),
        None => true,
    }
}

/// A text holds none of the operators `>`, `+` and `(`.
pub open spec fn free_of_operators(e: Seq<char>) -> bool {
    !e.contains('>') && !e.contains('+') && !e.contains('(')
}

/// An element without operators and without `*` is one statement: the element itself, no
/// children, no siblings, multiplier 1.
proof fn lemma_plain_element(e: Seq<char>, level: usize)
    requires
        free_of_operators(e),
        !e.contains('*'),
    ensures
        build(e, level) == (StatementModel {
            value: ElementModel { value: e, childs: None, level },
            sibling: None,
            multiplier: 1,
        }),
{
    lemma_index_of_absent(e, '>');
    lemma_index_of_absent(e, '+');
    lemma_index_of_absent(e, '*');
    assert(e.take(e.len() as int) =~= e);
    assert(e.subrange(0, e.len() as int) =~= e);
    if e.len() > 0 {
        assert(e.contains(e[0]));
    }
}

/// `e*n` renders the element `e` as many times as `n` says (at least once), one per line.
pub proof fn lemma_multiplier_repeats(e: Seq<char>, digits: Seq<char>, level: usize)
    requires
        free_of_operators(e),
        !e.contains('*'),
        all_digits(digits),
        parse_usize_spec(digits) is Some,
    ensures
        ({
            let k = parse_usize_spec(digits).unwrap();
            render_statement(build(e + seq!['*'] + digits, level)) == repeat_lines(
                render_statement(build(e, level)),
                if k == 0 {
                    1
                } else {
                    k as nat
                },
            )
        }),
{
    let s = e + seq!['*'] + digits;
    let n = s.len() as int;
    let m = e.len() as int;
    lemma_plain_element(e, level);
    assert forall|c: char| c == '>' || c == '+' || c == '(' implies !s.contains(c) by {
        if s.contains(c) {
            let j = choose|j: int| 0 <= j < s.len() && s[j] == c;
            if j < m {
                assert(e.contains(c));
            } else if j > m {
                assert(is_digit(digits[j - m - 1]));
            }
        }
    }
    lemma_index_of_absent(s, '>');
    lemma_index_of_absent(s, '+');
    if n > 0 {
        assert(s.contains(s[0]));
    }
    assert(s.take(n) =~= s);
    assert forall|j: int| 0 <= j < m implies s[j] != '*' by {
        assert(e.contains(e[j]));
    }
    lemma_index_of_at(s, '*', m);
    assert(s.contains('*')) by {
        assert(s[m] == '*');
    }
    assert(s.skip(m + 1) =~= digits);
    assert(s.subrange(0, m) =~= e);
    assert(s.subrange(n, n) =~= Seq::<char>::empty());
    assert(unsigned_digits(digits) == digits) by {
        if digits.len() > 0 {
            assert(is_digit(digits[0]));
        }
    }
}

/// `a+b` renders `a`, then, on the next line, `b`, when `a` holds no operator and `b` is
/// not empty.
pub proof fn lemma_sibling_follows(a: Seq<char>, b: Seq<char>, level: usize)
    requires
        free_of_operators(a),
        b.len() > 0,
    ensures
        render_statement(build(a + seq!['+'] + b, level)) == render_statement(build(a, level))
            + seq!['\n'] + render_statement(build(b, level)),
{
    let s = a + seq!['+'] + b;
    let n = s.len() as int;
    let m = a.len() as int;
    assert forall|j: int| 0 <= j < m implies s[j] != '+' && s[j] != '>' by {
        assert(a.contains(a[j]));
    }
    lemma_index_of_at(s, '+', m);
    lemma_index_of(s, '>');
    lemma_index_of_absent(a, '>');
    lemma_index_of_absent(a, '+');
    if m > 0 {
        assert(a.contains(a[0]));
    }
    assert(s.take(m) =~= a);
    assert(a.take(m) =~= a);
    lemma_index_of(a, '*');
    assert(s.subrange(0, index_of(a, '*')) =~= a.subrange(0, index_of(a, '*')));
    assert(s.subrange(m + 1, n) =~= b);
    assert(s.subrange(n, n) =~= Seq::<char>::empty());
    assert(a.subrange(m, m) =~= Seq::<char>::empty());
    assert(build(s, level).value == build(a, level).value);
}

/// Whatever follows the first `*` of an element's text plays no part in its markup.
pub proof fn lemma_element_ignores_multiplier(value: Seq<char>, childs: Option<Box<StatementModel>>, level: usize)
    ensures
        render_element(ElementModel { value: element::element_name(value), childs, level })
            == render_element(ElementModel { value, childs, level }),
        element_tree_defined(ElementModel { value: element::element_name(value), childs, level })
            == element_tree_defined(ElementModel { value, childs, level }),
{
    let k = index_of(value, '*');
    lemma_index_of(value, '*');
    let name = value.take(k);
    assert forall|j: int| 0 <= j < name.len() implies name[j] != '*' by {}
    assert(!name.contains('*'));
    lemma_index_of_absent(name, '*');
    assert(element::element_name(name) =~= name);
}

/// Indenting `k` copies of `x` on separate lines indents each copy.
proof fn lemma_repeat_lines_indent(x: Seq<char>, k: nat, t: Seq<char>)
    ensures
        t + indent_lines(repeat_lines(x, k), t) == repeat_lines(t + indent_lines(x, t), k),
    decreases k,
{
    if k > 1 {
        lemma_repeat_lines_indent(x, (k - 1) as nat, t);
        let r = repeat_lines(x, (k - 1) as nat);
        lemma_indent_concat(r + seq!['\n'], x, t);
        lemma_indent_concat(r, seq!['\n'], t);
        lemma_indent_newline(t);
        assert(t + indent_lines(repeat_lines(x, k), t) =~= (t + indent_lines(r, t)) + seq!['\n'] + (t
            + indent_lines(x, t)));
    }
}

proof fn lemma_tabs_line_free(n: nat)
    ensures
        line_free(repeat_char('\t', n)),
{
}

/// Indenting a line without newlines only adds the indentation in front.
proof fn lemma_indent_single_line(x: Seq<char>, t: Seq<char>)
    requires
        line_free(x),
    ensures
        t + indent_lines(x, t) == t + x,
{
    lemma_indent_line_free(x, t);
}

/// Indenting a tag that encloses children indents the opening line, every child line and
/// the closing line.
proof fn lemma_indent_enclosing(head: Seq<char>, x: Seq<char>, tm: Seq<char>, y: Seq<char>, t: Seq<char>)
    requires
        line_free(head),
        line_free(tm),
        line_free(y),
    ensures
        t + indent_lines(head + (seq!['\n'] + x + seq!['\n'] + tm) + y, t) == (t + head) + (seq!['\n'] + (t
            + indent_lines(x, t)) + seq!['\n'] + (t + tm)) + y,
{
    let big_a = head + seq!['\n'];
    let big_c = seq!['\n'] + (tm + y);
    assert(head + (seq!['\n'] + x + seq!['\n'] + tm) + y =~= big_a + x + big_c);
    lemma_indent_concat(big_a + x, big_c, t);
    lemma_indent_concat(big_a, x, t);
    lemma_indent_concat(head, seq!['\n'], t);
    lemma_indent_concat(seq!['\n'], tm + y, t);
    lemma_indent_newline(t);
    assert(line_free(tm + y));
    lemma_indent_line_free(head, t);
    lemma_indent_line_free(tm + y, t);
    assert(t + indent_lines(big_a + x + big_c, t) =~= (t + head) + (seq!['\n'] + (t + indent_lines(x, t))
        + seq!['\n'] + (t + tm)) + y);
}

/// Indenting an element's markup by `t` is the markup with `t` added to its indentation and to
/// its children.
proof fn lemma_markup_indent(
    tag: Seq<char>,
    attrs: Seq<attribute::AttributeModel>,
    single: bool,
    c: Option<Seq<char>>,
    t: Seq<char>,
    tm: Seq<char>,
)
    requires
        line_free(tag),
        line_free(t),
        line_free(tm),
        line_free(attribute::group_output(attrs, true)),
        line_free(attribute::group_output(attrs, false)),
    ensures
        element::element_markup(
            tag,
            attrs,
            single,
            element::child_lines(
                match c {
                    Some(x) => Some(t + indent_lines(x, t)),
                    None => None,
                },
                t + tm,
            ),
            t + tm,
        ) == t + indent_lines(element::element_markup(tag, attrs, single, element::child_lines(c, tm), tm), t),
{
    let a = if attrs.len() > 0 {
        attribute::group_output(attrs, single)
    } else if single {
        seq!['/', '>']
    } else {
        seq!['>']
    };
    let y = seq!['<', '/'] + tag + seq!['>'];
    let head = tm + seq!['<'] + tag + a;
    let cl = match c {
        Some(x) => Some(t + indent_lines(x, t)),
        None => None,
    };
    let mm = element::element_markup(tag, attrs, single, element::child_lines(c, tm), tm);
    let ml = element::element_markup(tag, attrs, single, element::child_lines(cl, t + tm), t + tm);
    assert(line_free(head));
    if single {
        lemma_indent_single_line(head, t);
        assert(mm == head);
        assert(ml =~= t + head);
    } else {
        match c {
            None => {
                assert(mm =~= head + y);
                assert(ml =~= t + (head + y));
                assert(line_free(head + y));
                lemma_indent_single_line(head + y, t);
            },
            Some(x) => {
                lemma_indent_enclosing(head, x, tm, y, t);
                assert(mm =~= head + (seq!['\n'] + x + seq!['\n'] + tm) + y);
                assert(ml =~= (t + head) + (seq!['\n'] + (t + indent_lines(x, t)) + seq!['\n'] + (t + tm)) + y);
            },
        }
    }
}

/// An element's markup one level `l` deeper is its markup with `l` more tabs on every line.
proof fn lemma_element_output_indent(
    value: Seq<char>,
    cm: Option<Seq<char>>,
    cl: Option<Seq<char>>,
    l: usize,
    m: usize,
)
    requires
        line_free(value),
        l + m <= usize::MAX,
        cl == match cm {
            Some(c) => Some(repeat_char('\t', l as nat) + indent_lines(c, repeat_char('\t', l as nat))),
            None => None,
        },
    ensures
        element_output(value, cl, (l + m) as usize) == repeat_char('\t', l as nat) + indent_lines(
            element_output(value, cm, m),
            repeat_char('\t', l as nat),
        ),
{
    let t = repeat_char('\t', l as nat);
    let tm = repeat_char('\t', m as nat);
    lemma_repeat_char_add('\t', l as nat, m as nat);
    lemma_tabs_line_free(l as nat);
    lemma_tabs_line_free(m as nat);
    element::lemma_element_parts_line_free(value);
    let v = element::element_text(value);
    let g = attribute::group_spec(element::clean_text(v));
    let tag = element::element_tag(value);
    let single = element::ends_with_slash(v) && cm is None && !attribute::has_text_attribute(g.attributes);
    assert(element::child_lines(cm, tm).len() == 0 <==> cm is None);
    assert(element::child_lines(cl, t + tm).len() == 0 <==> cm is None);
    lemma_markup_indent(tag, g.attributes, single, cm, t, tm);
}

/// A statement rendered `l` levels deeper is its markup with `l` more tabs on every line
/// (for a text without newlines).
proof fn lemma_render_indent(s: Seq<char>, l: usize, m: usize)
    requires
        line_free(s),
        l + m <= usize::MAX,
        build_defined(s, (l + m) as usize),
    ensures
        render_statement(build(s, (l + m) as usize)) == repeat_char('\t', l as nat) + indent_lines(
            render_statement(build(s, m)),
            repeat_char('\t', l as nat),
        ),
    decreases s.len(),
{
    let t = repeat_char('\t', l as nat);
    let lm = (l + m) as usize;
    let p = parse_input_spec(s);
    let r = input_pieces(s);
    lemma_input_pieces(s);
    assert(line_free(p.0) && line_free(p.1) && line_free(p.3)) by {
        assert forall|i: int| 0 <= i < p.0.len() implies p.0[i] != '\n' by {
            assert(p.0[i] == s[r.element.0 + i]);
        }
        assert forall|i: int| 0 <= i < p.1.len() implies p.1[i] != '\n' by {
            assert(p.1[i] == s[r.child.0 + i]);
        }
        assert forall|i: int| 0 <= i < p.3.len() implies p.3[i] != '\n' by {
            assert(p.3[i] == s[r.sibling.0 + i]);
        }
    }
    let tree_l = build(s, lm);
    let tree_m = build(s, m);
    let cm = match tree_m.value.childs {
        Some(c) => Some(render_statement(*c)),
        None => None,
    };
    let cl = match tree_l.value.childs {
        Some(c) => Some(render_statement(*c)),
        None => None,
    };
    if p.1.len() > 0 {
        lemma_render_indent(p.1, l, (m + 1) as usize);
    }
    lemma_element_output_indent(p.0, cm, cl, l, m);
    let e_m = render_element(tree_m.value);
    let e_l = render_element(tree_l.value);
    assert(e_l == t + indent_lines(e_m, t));
    let k: nat = if p.2 == 0 {
        1
    } else {
        p.2 as nat
    };
    lemma_repeat_lines_indent(e_m, k, t);
    let copies_m = repeat_lines(e_m, k);
    if p.3.len() > 0 {
        lemma_render_indent(p.3, l, m);
        let sib_m = render_statement(build(p.3, m));
        lemma_indent_concat(copies_m + seq!['\n'], sib_m, t);
        lemma_indent_concat(copies_m, seq!['\n'], t);
        lemma_indent_newline(t);
        assert(t + indent_lines(copies_m + seq!['\n'] + sib_m, t) =~= (t + indent_lines(copies_m, t))
            + seq!['\n'] + (t + indent_lines(sib_m, t)));
    }
}

/// Every line of a statement's markup is indented by the statement's level: rendered at level
/// `l`, a text without newlines gives its level-0 markup with `l` tabs at the start of every
/// line.
pub proof fn lemma_level_indents_every_line(s: Seq<char>, l: usize)
    requires
        line_free(s),
        build_defined(s, l),
    ensures
        render_statement(build(s, l)) == repeat_char('\t', l as nat) + indent_lines(
            render_statement(build(s, 0)),
            repeat_char('\t', l as nat),
        ),
{
    lemma_render_indent(s, l, 0);
}

/// A statement's element is on the statement's level, its children one level lower and its
/// siblings on the same level.
pub proof fn lemma_build_levels(s: Seq<char>, level: usize)
    ensures
        build(s, level).value.level == level,
        build(s, level).value.childs matches Some(c) ==> c.value.level == (level + 1) as usize,
        build(s, level).sibling matches Some(sb) ==> sb.value.level == level,
{
    let p = parse_input_spec(s);
    if p.1.len() > 0 {
        assert(build(p.1, (level + 1) as usize).value.level == (level + 1) as usize);
    }
    if p.3.len() > 0 {
        assert(build(p.3, level).value.level == level);
    }
}

/// Every element's markup starts on its own indentation: `level` tabs, then its tag.
pub proof fn lemma_element_indentation(e: ElementModel)
    ensures
        render_element(e).take(e.level + 1) == repeat_char('\t', e.level as nat).push('<'),
{
    let r = render_element(e);
    let tabs = repeat_char('\t', e.level as nat);
    assert(r.take(e.level + 1) =~= tabs.push('<'));
}

/// In a text with balanced parentheses that opens a group, the `)` closing the group lies
/// inside the text.
pub proof fn lemma_balanced_group_closes(s: Seq<char>)
    requires
        correctly_closed(s),
        s.len() > 0,
        s[0] == '(',
    ensures
        closing_index(s.skip(1)) < s.len() - 1,
{
    let t = s.skip(1);
    let m = t.len() as int;
    lemma_first_hit(ClosingProbe, t, 0);
    assert(s =~= seq![s[0]] + t);
    lemma_count_concat(seq![s[0]], t, '(');
    lemma_count_concat(seq![s[0]], t, ')');
    let one = seq![s[0]];
    assert(one.drop_last() =~= Seq::<char>::empty());
    assert(count_char(Seq::<char>::empty(), '(') == 0);
    assert(count_char(Seq::<char>::empty(), ')') == 0);
    assert(one.last() == '(');
    assert(count_char(one, '(') == 1);
    assert(count_char(one, ')') == 0);
    if closing_index(t) == m {
        lemma_no_close_keeps_balance(t, m);
        assert(t.take(m) =~= t);
    }
}

/// Without a hit of `ClosingProbe` before `i`, the prefix of length `i` closes no more than
/// it opens.
proof fn lemma_no_close_keeps_balance(t: Seq<char>, i: int)
    requires
        0 <= i <= t.len(),
        forall|j: int| 0 <= j < i ==> !#[trigger] ClosingProbe.hit(t, j),
    ensures
        count_char(t.take(i), ')') <= count_char(t.take(i), '('),
    decreases i,
{
    if i > 0 {
        lemma_no_close_keeps_balance(t, i - 1);
        lemma_count_step(t, '(', i - 1);
        lemma_count_step(t, ')', i - 1);
        assert(!ClosingProbe.hit(t, i - 1));
    } else {
        assert(t.take(0).len() == 0);
    }
}

/// Counting over a concatenation adds up.
pub proof fn lemma_count_concat(a: Seq<char>, b: Seq<char>, c: char)
    ensures
        count_char(a + b, c) == count_char(a, c) + count_char(b, c),
    decreases b.len(),
{
    if b.len() > 0 {
        lemma_count_concat(a, b.drop_last(), c);
        assert((a + b).drop_last() =~= a + b.drop_last());
    } else {
        assert(a + b =~= a);
    }
}

// ---------------------------------------------------------------------------
// Statements
// ---------------------------------------------------------------------------

/// One statement of an abbreviation: an element, its siblings, and how many times the element
/// is repeated.
#[derive(Debug)]
pub struct Statement {
    value: Element,
    sibling: Option<Box<Statement>>,
    multiplier: usize,
}

/// Exec form of `InputPieces` for a text whose splitting is defined.
struct InputRanges {
    element: (usize, usize),
    child: (usize, usize),
    multiplier: usize,
    sibling: (usize, usize),
}

impl InputRanges {
    spec fn matches(&self, p: InputPieces) -> bool {
        &&& p.defined
        &&& self.element.0 == p.element.0 && self.element.1 == p.element.1
        &&& self.child.0 == p.child.0 && self.child.1 == p.child.1
        &&& self.multiplier == p.multiplier
        &&& self.sibling.0 == p.sibling.0 && self.sibling.1 == p.sibling.1
    }
}

impl Clone for Statement {
    fn clone(&self) -> (r: Self)
        ensures
            r.model() == self.model(),
    {
        self.copy()
    }
}

impl Statement {
    /// A copy of the statement, its element, children and siblings included.
    pub(crate) fn copy(&self) -> (r: Self)
        ensures
            r.model() == self.model(),
        decreases self,
    {
        let sibling = match &self.sibling {
            Some(s) => Some(Box::new(s.copy())),
            None => None,
        };
        Statement { value: self.value.copy(), sibling, multiplier: self.multiplier }
    }

    pub closed spec fn model(&self) -> StatementModel
        decreases self,
    {
        StatementModel {
            value: self.value.model(),
            sibling: match self.sibling {
                Some(b) => Some(Box::new(b.model())),
                None => None,
            },
            multiplier: self.multiplier,
        }
    }

    /// Creates the statement that `input` describes at `base_level` (see `build`).
    pub fn new(input: &str, base_level: usize) -> (r: Self)
        requires
            build_defined(input@, base_level),
        ensures
            r.model() == build(input@, base_level),
    {
        let s = chars_of(input);
        Self::new_checked(&s, base_level).unwrap()
    }

    /// The statement that `s` describes at `level`, or `None` where building is not defined.
    pub(crate) fn new_checked(s: &[char], level: usize) -> (r: Option<Self>)
        ensures
            r is Some <==> build_defined(s@, level),
            r matches Some(t) ==> t.model() == build(s@, level),
        decreases s@.len(),
    {
        proof {
            lemma_input_pieces(s@);
        }
        let ranges = match Self::split_input(s) {
            Some(r) => r,
            None => {
                return None;
            },
        };
        let value = sub_chars(s, ranges.element.0, ranges.element.1);
        let child = sub_chars(s, ranges.child.0, ranges.child.1);
        let sibling = sub_chars(s, ranges.sibling.0, ranges.sibling.1);
        let childs = if child.len() > 0 {
            if level == usize::MAX {
                return None;
            }
            match Self::new_checked(&child, level + 1) {
                Some(c) => Some(c),
                None => {
                    return None;
                },
            }
        } else {
            None
        };
        let sibling = if sibling.len() > 0 {
            match Self::new_checked(&sibling, level) {
                Some(c) => Some(Box::new(c)),
                None => {
                    return None;
                },
            }
        } else {
            None
        };
        let element = Element::new(string_of(&value), childs, level);
        let r = Statement { value: element, sibling, multiplier: ranges.multiplier };
        assert(r.model() == build(s@, level));
        Some(r)
    }

    /// Splits a statement's text into element, children, multiplier and siblings
    /// (see `input_pieces`), giving slices of `input`.
    pub fn parse_input(input: &str) -> (r: ((&str, &str, usize), &str))
        requires
            input_pieces(input@).defined,
        ensures
            r.0.0@ == parse_input_spec(input@).0,
            r.0.1@ == parse_input_spec(input@).1,
            r.0.2 == parse_input_spec(input@).2,
            r.1@ == parse_input_spec(input@).3,
            r.0.1@.len() == 0 || r.0.1@.len() < input@.len(),
            r.1@.len() == 0 || r.1@.len() < input@.len(),
    {
        let s = chars_of(input);
        proof {
            lemma_input_pieces(s@);
        }
        let ranges = Self::split_input(&s).unwrap();
        let element = input.substring_char(ranges.element.0, ranges.element.1);
        let child = input.substring_char(ranges.child.0, ranges.child.1);
        let sibling = input.substring_char(ranges.sibling.0, ranges.sibling.1);
        ((element, child, ranges.multiplier), sibling)
    }

    /// The ranges of the pieces of `s`, or `None` where splitting is not defined.
    fn split_input(s: &[char]) -> (r: Option<InputRanges>)
        ensures
            r is Some <==> input_pieces(s@).defined,
            r matches Some(x) ==> x.matches(input_pieces(s@)),
    {
        let n = s.len();
        let d = find_char(s, '>');
        let b = find_char(s, '+');
        proof {
            lemma_index_of(s@, '>');
            lemma_index_of(s@, '+');
        }
        if n > 0 && s[0] == '(' {
            let inner = sub_chars(s, 1, n);
            assert(inner@ =~= s@.skip(1));
            let c = Self::closing_index_exec(&inner);
            proof {
                lemma_first_hit(ClosingProbe, inner@, 0);
                lemma_closing_number(s@);
                lemma_byte_offset_order(s@);
            }
            let ghost k = closing_number(s@);
            // Where the bytes `k` and `k + 1` fall, and whether they are boundaries.
            let (t, t_ok, e, e_ok) = if c < n - 1 {
                let (t, t_ok) = char_pos_exec(s, c);
                let (e, e_ok) = char_pos_exec(s, c + 1);
                (t, t_ok, e, e_ok)
            } else {
                (n - 1, utf8_width_exec(s[n - 1]) == 1, n, true)
            };
            if !(t_ok && e_ok) {
                return None;
            }
            assert(t == char_pos(s@, k) && e == char_pos(s@, k + 1));
            proof {
                lemma_char_pos(s@, k);
                lemma_char_pos(s@, k + 1);
            }
            let tail = sub_chars(s, t, n);
            assert(tail@ =~= s@.skip(t as int));
            let m = Self::group_multiplier_exec(&tail, n);
            if d <= b {
                let plus = find_char(&tail, '+');
                proof {
                    lemma_index_of(tail@, '+');
                }
                let j = if plus < tail.len() { plus + 1 } else { tail.len() };
                if d <= t {
                    Some(InputRanges { element: (1, d), child: (d + 1, e), multiplier: m, sibling: (t + j, n) })
                } else {
                    None
                }
            } else {
                if e <= b {
                    Some(InputRanges { element: (1, e), child: (n, n), multiplier: m, sibling: (b + 1, n) })
                } else {
                    None
                }
            }
        } else if d <= b {
            let elem = sub_chars(s, 0, d);
            assert(elem@ =~= s@.take(d as int));
            let star = find_char(&elem, '*');
            let m = Self::star_multiplier_exec(&elem);
            Some(InputRanges { element: (0, star), child: if d < n { (d + 1, n) } else { (n, n) }, multiplier: m, sibling: (n, n) })
        } else {
            let elem = sub_chars(s, 0, b);
            assert(elem@ =~= s@.take(b as int));
            let star = find_char(&elem, '*');
            let m = Self::star_multiplier_exec(&elem);
            Some(InputRanges { element: (0, star), child: (n, n), multiplier: m, sibling: (b + 1, n) })
        }
    }

    /// The multiplier given as `*n` to an element (see `star_multiplier`).
    fn star_multiplier_exec(elem: &[char]) -> (m: usize)
        ensures
            m == star_multiplier(elem@),
    {
        let star = find_char(elem, '*');
        proof {
            lemma_index_of(elem@, '*');
        }
        if star < elem.len() {
            let digits = sub_chars(elem, star + 1, elem.len());
            assert(digits@ =~= elem@.skip(star + 1));
            match parse_usize(&digits) {
                Some(m) => m,
                None => 1,
            }
        } else {
            1
        }
    }

    /// The multiplier given as `*n` after a group (see `group_multiplier`).
    fn group_multiplier_exec(tail: &[char], n: usize) -> (m: usize)
        requires
            tail@.len() <= n,
        ensures
            m == group_multiplier(tail@, n as int),
    {
        let star = find_char(tail, '*');
        let plus = find_char(tail, '+');
        proof {
            lemma_index_of(tail@, '*');
            lemma_index_of(tail@, '+');
        }
        let star_key = if star < tail.len() { star } else { n };
        let plus_key = if plus < tail.len() { plus } else { n };
        if star_key < plus_key {
            let digits = sub_chars(tail, star + 1, plus);
            match parse_usize(&digits) {
                Some(m) => m,
                None => 1,
            }
        } else {
            1
        }
    }

    /// Position of the `)` closing a group opened just before `input` (see `closing_index`):
    /// the character position of that `)`, or, when there is none, the length of `input` in
    /// bytes.
    pub fn find_closing_index(input: &str) -> (r: usize)
        ensures
            closing_index(input@) < input@.len() ==> r == closing_index(input@),
            closing_index(input@) < input@.len() ==> input@[r as int] == ')' && count_char(
                input@.take(r as int),
                '(',
            ) == count_char(input@.take(r as int), ')'),
            closing_index(input@) == input@.len() ==> r == byte_len(input@) as usize,
    {
        let s = chars_of(input);
        let r = Self::closing_index_exec(&s);
        proof {
            lemma_first_hit(ClosingProbe, s@, 0);
        }
        if r < s.len() {
            r
        } else {
            input.len()
        }
    }

    fn closing_index_exec(s: &[char]) -> (r: usize)
        ensures
            r == closing_index(s@),
    {
        let n = s.len();
        let mut opens: usize = 0;
        let mut closes: usize = 0;
        let mut i: usize = 0;
        while i < n
            invariant
                n == s@.len(),
                i <= n,
                opens == count_char(s@.take(i as int), '('),
                closes == count_char(s@.take(i as int), ')'),
                forall|j: int| 0 <= j < i ==> !#[trigger] ClosingProbe.hit(s@, j),
            decreases n - i,
        {
            proof {
                lemma_count_step(s@, '(', i as int);
                lemma_count_step(s@, ')', i as int);
            }
            if s[i] == ')' {
                if opens == closes {
                    proof {
                        lemma_first_hit_unique(ClosingProbe, s@, 0, i as int);
                    }
                    return i;
                }
                closes = closes + 1;
            } else if s[i] == '(' {
                opens = opens + 1;
            }
            i = i + 1;
        }
        proof {
            lemma_first_hit_unique(ClosingProbe, s@, 0, n as int);
        }
        n
    }

    /// Parses the statement into its final markup (see `render_statement`).
    pub fn parse(&self) -> (r: String)
        requires
            statement_tree_defined(self.model()),
        ensures
            r@ == render_statement(self.model()),
    {
        let v = self.parse_checked();
        string_of(&v.unwrap())
    }

    /// The markup of the statement, or `None` where rendering is not defined.
    pub(crate) fn parse_checked(&self) -> (r: Option<Vec<char>>)
        ensures
            r is Some <==> statement_tree_defined(self.model()),
            r matches Some(x) ==> x@ == render_statement(self.model()),
        decreases self,
    {
        let one = match self.value.to_value_checked() {
            Some(v) => v,
            None => {
                return None;
            },
        };
        let mut out: Vec<char> = Vec::new();
        append_all(&mut out, &one);
        let copies: usize = if self.multiplier == 0 { 1 } else { self.multiplier };
        let mut i: usize = 1;
        while i < copies
            invariant
                1 <= i <= copies,
                out@ == repeat_lines(one@, i as nat),
            decreases copies - i,
        {
            out.push('\n');
            append_all(&mut out, &one);
            i = i + 1;
        }
        match &self.sibling {
            Some(sb) => {
                match sb.parse_checked() {
                    Some(rest) => {
                        out.push('\n');
                        append_all(&mut out, &rest);
                    },
                    None => {
                        return None;
                    },
                }
            },
            None => {},
        }
        Some(out)
    }
}

} // verus!
