//! Checks made on an abbreviation before it is expanded.

use vstd::prelude::*;
use crate::text::{chars_of, count_char, lemma_count_step};

verus! {

/// The parentheses of `s` are balanced: no prefix closes more groups than it opens, and the
/// whole text closes every group it opens.
pub open spec fn correctly_closed(s: Seq<char>) -> bool {
    &&& forall|i: int| 0 <= i <= s.len() ==> #[trigger] count_char(s.take(i), '(') >= count_char(s.take(i), ')')
    &&& count_char(s, '(') == count_char(s, ')')
}

/// Whether the parentheses of `input` are balanced (see `correctly_closed`).
pub fn input_correctly_close(input: &String) -> (b: bool)
    ensures
        b == correctly_closed(input@),
{
    let s = chars_of(input.as_str());
    let n = s.len();
    let mut opens: usize = 0;
    let mut closes: usize = 0;
    let mut i: usize = 0;
    assert(s@.take(0).len() == 0);
    while i < n
        invariant
            s@ == input@,
            n == s@.len(),
            i <= n,
            opens == count_char(s@.take(i as int), '('),
            closes == count_char(s@.take(i as int), ')'),
            forall|j: int| 0 <= j <= i ==> #[trigger] count_char(s@.take(j), '(') >= count_char(s@.take(j), ')'),
        decreases n - i,
    {
        proof {
            lemma_count_step(s@, '(', i as int);
            lemma_count_step(s@, ')', i as int);
        }
        if s[i] == '(' {
            opens = opens + 1;
        } else if s[i] == ')' {
            closes = closes + 1;
            if closes > opens {
                assert(count_char(input@.take(i + 1), '(') < count_char(input@.take(i + 1), ')'));
                assert(!correctly_closed(input@));
                return false;
            }
        }
        i = i + 1;
    }
    assert(s@.take(n as int) =~= s@);
    opens == closes
}

} // verus!
