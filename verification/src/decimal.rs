//! Comma- or dot-decimal numerals, read exactly into fixed-point
//! hundredths (centi-units).
//!
//! A numeral is one to three integer digits, optionally followed by a
//! decimal separator (comma or dot) and one or two fraction digits.
//! Transcript cells that do not have this shape (including the empty
//! cell and the bare "B" passing mark) are not numerals; callers fall
//! back to a default in that case.
use vstd::prelude::*;

verus! {

pub open spec fn is_digit(c: char) -> bool {
    '0' <= c && c <= '9'
}

pub open spec fn digit_val(c: char) -> int {
    c as int - '0' as int
}

pub open spec fn all_digits(s: Seq<char>) -> bool {
    forall|i: int| 0 <= i < s.len() ==> is_digit(#[trigger] s[i])
}

/// Value of a digit string read in base ten.
pub open spec fn digits_val(s: Seq<char>) -> int
    decreases s.len(),
{
    if s.len() == 0 {
        0
    } else {
        digits_val(s.drop_last()) * 10 + digit_val(s.last())
    }
}

pub open spec fn is_sep(c: char) -> bool {
    c == ',' || c == '.'
}

/// The exact centi-unit value of a numeral, or `None` where the text is
/// not a numeral.
pub open spec fn numeral_centi(s: Seq<char>) -> Option<int> {
    let n = s.len() as int;
    if 1 <= n <= 3 && all_digits(s) {
        Some(100 * digits_val(s))
    } else if 3 <= n <= 5 && is_sep(s[n - 2]) && all_digits(s.subrange(0, n - 2)) && is_digit(
        s[n - 1],
    ) {
        Some(100 * digits_val(s.subrange(0, n - 2)) + 10 * digit_val(s[n - 1]))
    } else if 4 <= n <= 6 && is_sep(s[n - 3]) && all_digits(s.subrange(0, n - 3)) && is_digit(
        s[n - 2],
    ) && is_digit(s[n - 1]) {
        Some(100 * digits_val(s.subrange(0, n - 3)) + 10 * digit_val(s[n - 2]) + digit_val(s[n - 1]))
    } else {
        None
    }
}

pub proof fn lemma_digits_val_bounds(s: Seq<char>)
    requires
        all_digits(s),
    ensures
        0 <= digits_val(s),
        s.len() <= 1 ==> digits_val(s) <= 9,
        s.len() <= 2 ==> digits_val(s) <= 99,
        s.len() <= 3 ==> digits_val(s) <= 999,
    decreases s.len(),
{
    if s.len() > 0 {
        assert(all_digits(s.drop_last()));
        lemma_digits_val_bounds(s.drop_last());
        assert(is_digit(s.last()));
    }
}

/// Every numeral value fits the global centi-unit bound.
pub proof fn lemma_numeral_in_range(s: Seq<char>)
    ensures
        numeral_centi(s) is Some ==> 0 <= numeral_centi(s)->Some_0 <= crate::MAX_CENTI,
{
    let n = s.len() as int;
    if 1 <= n <= 3 && all_digits(s) {
        lemma_digits_val_bounds(s);
    } else if 3 <= n <= 5 && is_sep(s[n - 2]) && all_digits(s.subrange(0, n - 2)) && is_digit(
        s[n - 1],
    ) {
        lemma_digits_val_bounds(s.subrange(0, n - 2));
    } else if 4 <= n <= 6 && is_sep(s[n - 3]) && all_digits(s.subrange(0, n - 3)) && is_digit(
        s[n - 2],
    ) && is_digit(s[n - 1]) {
        lemma_digits_val_bounds(s.subrange(0, n - 3));
    }
}

fn exec_is_digit(c: char) -> (r: bool)
    ensures
        r == is_digit(c),
{
    '0' <= c && c <= '9'
}

fn exec_is_sep(c: char) -> (r: bool)
    ensures
        r == is_sep(c),
{
    c == ',' || c == '.'
}

/// The characters of `s`, as a vector.
fn chars_of(s: &str) -> (r: Vec<char>)
    ensures
        r@ == s@,
{
    let n = s.unicode_len();
    let mut r: Vec<char> = Vec::new();
    let mut i: usize = 0;
    while i < n
        invariant
            n == s@.len(),
            i <= n,
            r@ == s@.subrange(0, i as int),
        decreases n - i,
    {
        r.push(s.get_char(i));
        i += 1;
        proof {
            assert(r@ =~= s@.subrange(0, i as int));
        }
    }
    proof {
        assert(r@ =~= s@);
    }
    r
}

fn range_all_digits(cv: &Vec<char>, from: usize, to: usize) -> (r: bool)
    requires
        from <= to <= cv@.len(),
    ensures
        r == all_digits(cv@.subrange(from as int, to as int)),
{
    let mut i: usize = from;
    while i < to
        invariant
            from <= i <= to <= cv@.len(),
            forall|j: int| from <= j < i ==> is_digit(#[trigger] cv@[j]),
        decreases to - i,
    {
        if !exec_is_digit(cv[i]) {
            assert(!all_digits(cv@.subrange(from as int, to as int))) by {
                assert(cv@.subrange(from as int, to as int)[i - from] == cv@[i as int]);
            }
            return false;
        }
        i += 1;
    }
    assert forall|j: int| 0 <= j < to - from implies is_digit(
        #[trigger] cv@.subrange(from as int, to as int)[j],
    ) by {
        assert(cv@.subrange(from as int, to as int)[j] == cv@[from + j]);
    }
    true
}

fn range_digits_val(cv: &Vec<char>, from: usize, to: usize) -> (r: u32)
    requires
        from <= to <= cv@.len(),
        to - from <= 3,
        all_digits(cv@.subrange(from as int, to as int)),
    ensures
        r == digits_val(cv@.subrange(from as int, to as int)),
        r <= 999,
{
    let ghost whole = cv@.subrange(from as int, to as int);
    let mut acc: u32 = 0;
    let mut i: usize = from;
    while i < to
        invariant
            from <= i <= to <= cv@.len(),
            to - from <= 3,
            all_digits(whole),
            whole == cv@.subrange(from as int, to as int),
            acc == digits_val(cv@.subrange(from as int, i as int)),
            acc <= 999,
            i < to ==> acc <= 99,
        decreases to - i,
    {
        let c = cv[i];
        proof {
            assert(whole[i - from] == cv@[i as int]);
            assert(is_digit(c));
        }
        let d: u32 = (c as u32) - 48;
        acc = acc * 10 + d;
        i += 1;
        proof {
            let pre = cv@.subrange(from as int, i - 1);
            let cur = cv@.subrange(from as int, i as int);
            assert(cur.drop_last() =~= pre);
            assert(cur.last() == cv@[i - 1]);
            assert(forall|j: int| 0 <= j < cur.len() ==> cur[j] == whole[j]);
            assert(all_digits(cur)) by {
                assert(forall|j: int| 0 <= j < cur.len() ==> is_digit(#[trigger] whole[j]));
            }
            lemma_digits_val_bounds(cur);
            if i < to {
                let nxt = cv@.subrange(from as int, i + 1);
                assert(nxt.drop_last() =~= cur);
                assert(all_digits(nxt)) by {
                    assert(forall|j: int| 0 <= j < nxt.len() ==> nxt[j] == whole[j]);
                }
                lemma_digits_val_bounds(nxt);
            }
        }
    }
    proof {
        assert(cv@.subrange(from as int, to as int) =~= cv@.subrange(from as int, i as int));
    }
    acc
}

/// Reads a numeral into centi-units; `None` where the text is not a
/// numeral.
pub fn parse_centi(s: &str) -> (r: Option<u32>)
    ensures
        r matches Some(v) ==> numeral_centi(s@) == Some(v as int) && v <= crate::MAX_CENTI,
        r is None ==> numeral_centi(s@) is None,
{
    let cv = chars_of(s);
    let n = cv.len();
    if n < 1 || n > 6 {
        return None;
    }
    if n <= 3 && range_all_digits(&cv, 0, n) {
        proof {
            assert(cv@.subrange(0, n as int) =~= s@);
        }
        let v = range_digits_val(&cv, 0, n);
        return Some(100 * v);
    }
    proof {
        if n <= 3 {
            assert(!all_digits(s@)) by {
                assert(cv@.subrange(0, n as int) =~= s@);
            }
        }
    }
    if n >= 3 && exec_is_sep(cv[n - 2]) && range_all_digits(&cv, 0, n - 2) && exec_is_digit(
        cv[n - 1],
    ) && n - 2 <= 3 {
        let iv = range_digits_val(&cv, 0, n - 2);
        let d1: u32 = (cv[n - 1] as u32) - 48;
        proof {
            assert(is_digit(s@[n - 1]));
        }
        return Some(100 * iv + 10 * d1);
    }
    if n >= 4 && exec_is_sep(cv[n - 3]) && range_all_digits(&cv, 0, n - 3) && exec_is_digit(
        cv[n - 2],
    ) && exec_is_digit(cv[n - 1]) && n - 3 <= 3 {
        let iv = range_digits_val(&cv, 0, n - 3);
        let d1: u32 = (cv[n - 2] as u32) - 48;
        let d2: u32 = (cv[n - 1] as u32) - 48;
        return Some(100 * iv + 10 * d1 + d2);
    }
    proof {
        let m = s@.len() as int;
        if 3 <= m <= 5 && is_sep(s@[m - 2]) && all_digits(s@.subrange(0, m - 2)) && is_digit(
            s@[m - 1],
        ) {
            assert(false);
        }
        if 4 <= m <= 6 && is_sep(s@[m - 3]) && all_digits(s@.subrange(0, m - 3)) && is_digit(
            s@[m - 2],
        ) && is_digit(s@[m - 1]) {
            assert(false);
        }
    }
    None
}

} // verus!
