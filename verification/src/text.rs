//! Scanning of file names: where a separator first and last occurs, and the
//! value of a decimal token.

use vstd::prelude::*;
use vstd::string::*;

verus! {

/// The least index at which `c` occurs in `s`, or the length of `s` where it
/// does not occur.
pub open spec fn first_index_of(s: Seq<char>, c: char) -> int
    decreases s.len(),
{
    if s.len() == 0 {
        0
    } else if s[0] == c {
        0
    } else {
        1 + first_index_of(s.skip(1), c)
    }
}

/// The greatest index at which `c` occurs in `s`, or -1 where it does not occur.
pub open spec fn last_index_of(s: Seq<char>, c: char) -> int
    decreases s.len(),
{
    if s.len() == 0 {
        -1
    } else if s.last() == c {
        s.len() - 1
    } else {
        last_index_of(s.drop_last(), c)
    }
}

/// `i` is where `c` first occurs in `s`: nothing before `i` is `c`, and `i` is
/// either the length of `s` or holds `c`.
pub open spec fn is_first_index(s: Seq<char>, c: char, i: int) -> bool {
    &&& 0 <= i <= s.len()
    &&& forall|j: int| 0 <= j < i ==> s[j] != c
    &&& i < s.len() ==> s[i] == c
}

/// `i` is where `c` last occurs in `s`: nothing after `i` is `c`, and `i` is
/// either -1 or holds `c`.
pub open spec fn is_last_index(s: Seq<char>, c: char, i: int) -> bool {
    &&& -1 <= i < s.len()
    &&& forall|j: int| i < j < s.len() ==> s[j] != c
    &&& 0 <= i ==> s[i] == c
}

/// `first_index_of` is the one index that `is_first_index` describes.
pub proof fn lemma_first_index(s: Seq<char>, c: char)
    ensures
        is_first_index(s, c, first_index_of(s, c)),
        forall|i: int| is_first_index(s, c, i) ==> i == first_index_of(s, c),
    decreases s.len(),
{
    if s.len() > 0 && s[0] != c {
        let t = s.skip(1);
        lemma_first_index(t, c);
        let k = first_index_of(t, c);
        assert forall|j: int| 0 <= j < k + 1 implies s[j] != c by {
            if j > 0 {
                assert(t[j - 1] == s[j]);
            }
        }
        if k < t.len() {
            assert(t[k] == s[k + 1]);
        }
        assert forall|i: int| is_first_index(s, c, i) implies i == k + 1 by {
            assert(i > 0);
            assert forall|j: int| 0 <= j < i - 1 implies t[j] != c by {
                assert(t[j] == s[j + 1]);
            }
            if i - 1 < t.len() {
                assert(t[i - 1] == s[i]);
            }
            assert(is_first_index(t, c, i - 1));
        }
    } else if s.len() > 0 {
        assert forall|i: int| is_first_index(s, c, i) implies i == 0 by {
            if i > 0 {
                assert(s[0] != c);
            }
        }
    }
}

/// `last_index_of` is the one index that `is_last_index` describes.
pub proof fn lemma_last_index(s: Seq<char>, c: char)
    ensures
        is_last_index(s, c, last_index_of(s, c)),
        forall|i: int| is_last_index(s, c, i) ==> i == last_index_of(s, c),
    decreases s.len(),
{
    if s.len() > 0 && s.last() != c {
        let t = s.drop_last();
        lemma_last_index(t, c);
        let k = last_index_of(t, c);
        assert forall|j: int| k < j < s.len() implies s[j] != c by {
            if j < t.len() {
                assert(t[j] == s[j]);
            }
        }
        if 0 <= k {
            assert(t[k] == s[k]);
        }
        assert forall|i: int| is_last_index(s, c, i) implies i == k by {
            assert(i < s.len() - 1);
            assert forall|j: int| i < j < t.len() implies t[j] != c by {
                assert(t[j] == s[j]);
            }
            if 0 <= i {
                assert(t[i] == s[i]);
            }
            assert(is_last_index(t, c, i));
        }
    } else if s.len() > 0 {
        assert forall|i: int| is_last_index(s, c, i) implies i == s.len() - 1 by {
            if i < s.len() - 1 {
                assert(s[s.len() - 1] != c);
            }
        }
    }
}

/// Where `c` first occurs in `s`, or the number of characters of `s`.
pub fn find_first(s: &str, c: char) -> (i: usize)
    ensures
        i == first_index_of(s@, c),
        i <= s@.len(),
{
    let n = s.unicode_len();
    let mut i: usize = 0;
    while i < n
        invariant
            n == s@.len(),
            i <= n,
            forall|j: int| 0 <= j < i ==> s@[j] != c,
        decreases n - i,
    {
        if s.get_char(i) == c {
            proof {
                lemma_first_index(s@, c);
                assert(is_first_index(s@, c, i as int));
            }
            return i;
        }
        i += 1;
    }
    proof {
        lemma_first_index(s@, c);
        assert(is_first_index(s@, c, i as int));
    }
    i
}

/// Where `c` last occurs in `s`, or `None` where it does not occur.
pub fn find_last(s: &str, c: char) -> (r: Option<usize>)
    ensures
        match r {
            Some(i) => i == last_index_of(s@, c) && i < s@.len(),
            None => last_index_of(s@, c) == -1,
        },
{
    let n = s.unicode_len();
    let mut i: usize = n;
    while i > 0
        invariant
            n == s@.len(),
            i <= n,
            forall|j: int| i <= j < n ==> s@[j] != c,
        decreases i,
    {
        if s.get_char(i - 1) == c {
            proof {
                lemma_last_index(s@, c);
                assert(is_last_index(s@, c, i - 1));
            }
            return Some(i - 1);
        }
        i -= 1;
    }
    proof {
        lemma_last_index(s@, c);
        assert(is_last_index(s@, c, -1));
    }
    None
}

/// Whether `c` is one of the ten ASCII digits.
pub open spec fn is_digit(c: char) -> bool {
    '0' <= c <= '9'
}

/// The value of a digit.
pub open spec fn digit_value(c: char) -> nat {
    (c as u32 - '0' as u32) as nat
}

/// Whether every character of `s` is a digit.
pub open spec fn all_digits(s: Seq<char>) -> bool {
    forall|i: int| 0 <= i < s.len() ==> is_digit(#[trigger] s[i])
}

/// The number that a string of digits writes in base ten.
pub open spec fn decimal_value(s: Seq<char>) -> nat
    decreases s.len(),
{
    if s.len() == 0 {
        0
    } else {
        decimal_value(s.drop_last()) * 10 + digit_value(s.last())
    }
}

/// The digits of an unsigned token: the token without one leading `+`.
pub open spec fn unsigned_digits(s: Seq<char>) -> Seq<char> {
    if s.len() > 0 && s[0] == '+' {
        s.skip(1)
    } else {
        s
    }
}

/// The 32-bit number that a token writes: an optional `+`, then at least one
/// digit and nothing else, with a value that fits. `None` for any other token.
pub open spec fn parse_u32(s: Seq<char>) -> Option<u32> {
    let d = unsigned_digits(s);
    if d.len() > 0 && all_digits(d) && decimal_value(d) <= u32::MAX {
        Some(decimal_value(d) as u32)
    } else {
        None
    }
}

/// A longer string of digits does not write a smaller number than its prefix.
pub proof fn lemma_decimal_value_grows(s: Seq<char>, k: int)
    requires
        0 <= k <= s.len(),
        all_digits(s),
    ensures
        decimal_value(s.take(k)) <= decimal_value(s),
    decreases s.len() - k,
{
    if k < s.len() {
        let t = s.drop_last();
        assert(all_digits(t)) by {
            assert forall|i: int| 0 <= i < t.len() implies is_digit(#[trigger] t[i]) by {
                assert(t[i] == s[i]);
            }
        }
        lemma_decimal_value_grows(t, k);
        assert(t.take(k) =~= s.take(k));
    } else {
        assert(s.take(k) =~= s);
    }
}

/// Reads an unsigned 32-bit number from a token.
pub fn read_u32(s: &str) -> (r: Option<u32>)
    ensures
        r == parse_u32(s@),
{
    let n = s.unicode_len();
    let start: usize = if n > 0 && s.get_char(0) == '+' { 1 } else { 0 };
    let ghost d = unsigned_digits(s@);
    assert(d =~= s@.skip(start as int));
    if start == n {
        return None;
    }
    let mut value: u32 = 0;
    let mut i: usize = start;
    while i < n
        invariant
            n == s@.len(),
            start <= i <= n,
            d == unsigned_digits(s@),
            d == s@.skip(start as int),
            all_digits(d.take(i - start)),
            value == decimal_value(d.take(i - start)),
        decreases n - i,
    {
        let c = s.get_char(i);
        let ghost next = d.take(i - start + 1);
        assert(next.drop_last() =~= d.take(i - start));
        assert(next.last() == c);
        if !('0' <= c && c <= '9') {
            assert(!is_digit(d[i - start]));
            return None;
        }
        let digit: u32 = c as u32 - '0' as u32;
        assert(all_digits(next)) by {
            assert forall|j: int| 0 <= j < next.len() implies is_digit(#[trigger] next[j]) by {
                if j < i - start {
                    assert(d.take(i - start)[j] == next[j]);
                }
            }
        }
        assert(decimal_value(next) == value * 10 + digit);
        if value > (u32::MAX - digit) / 10 {
            proof {
                assert(decimal_value(next) > u32::MAX);
                if all_digits(d) {
                    lemma_decimal_value_grows(d, i - start + 1);
                }
            }
            return None;
        }
        value = value * 10 + digit;
        i += 1;
    }
    assert(d.take(i - start) =~= d);
    Some(value)
}

} // verus!
