//! The ordering key of a timing line: the digits of the start timestamp,
//! read as one integer after the `:` and `.` separators are removed.

use vstd::prelude::*;
use vstd::string::StrSliceExecFns;
use crate::VttError;

verus! {

/// The 5-character timing separator ` --> ` occurs in `s` at position `i`.
pub open spec fn sep_at(s: Seq<char>, i: int) -> bool {
    &&& 0 <= i
    &&& i + 5 <= s.len()
    &&& s[i] == ' '
    &&& s[i + 1] == '-'
    &&& s[i + 2] == '-'
    &&& s[i + 3] == '>'
    &&& s[i + 4] == ' '
}

/// The position of the first ` --> ` separator, or `s.len()` if none occurs.
pub open spec fn first_sep(s: Seq<char>) -> nat
    decreases s.len(),
{
    if s.len() == 0 {
        0
    } else if sep_at(s, 0) {
        0
    } else {
        1 + first_sep(s.drop_first())
    }
}

/// The start-timestamp part of a timing line: everything before the first
/// ` --> ` separator, or the whole line if there is no separator.
pub open spec fn start_part(s: Seq<char>) -> Seq<char> {
    s.take(first_sep(s) as int)
}

/// The characters that survive separator stripping: all but `:` and `.`.
pub open spec fn keep_time_char(c: char) -> bool {
    c != ':' && c != '.'
}

/// `s` with every `:` and `.` removed.
pub open spec fn strip_time_seps(s: Seq<char>) -> Seq<char>
    decreases s.len(),
{
    if s.len() == 0 {
        s
    } else {
        let rest = strip_time_seps(s.drop_last());
        if keep_time_char(s.last()) {
            rest.push(s.last())
        } else {
            rest
        }
    }
}

/// A decimal digit character.
pub open spec fn is_digit_char(c: char) -> bool {
    '0' as u32 <= c as u32 && c as u32 <= '9' as u32
}

/// The numeric value of a digit character.
pub open spec fn digit_val(c: char) -> int {
    c as u32 - '0' as u32
}

/// Every character of `s` is a decimal digit.
pub open spec fn all_digits(s: Seq<char>) -> bool {
    forall|i: int| 0 <= i < s.len() ==> is_digit_char(#[trigger] s[i])
}

/// The integer a digit string denotes, most significant digit first.
pub open spec fn digits_val(s: Seq<char>) -> int
    decreases s.len(),
{
    if s.len() == 0 {
        0
    } else {
        10 * digits_val(s.drop_last()) + digit_val(s.last())
    }
}

/// Ten to the `k`.
pub open spec fn pow10(k: nat) -> int
    decreases k,
{
    if k == 0 {
        1
    } else {
        10 * pow10((k - 1) as nat)
    }
}

/// A timing line is valid when it holds a ` --> ` separator and stripping
/// `:` and `.` from its start part leaves a non-empty digit string whose
/// value fits in a machine word.
pub open spec fn timing_valid(line: Seq<char>) -> bool {
    let d = strip_time_seps(start_part(line));
    first_sep(line) < line.len() && d.len() > 0 && all_digits(d) && digits_val(d)
        <= usize::MAX as int
}

/// The ordering key of a valid timing line.
pub open spec fn time_key_of(line: Seq<char>) -> int {
    digits_val(strip_time_seps(start_part(line)))
}

proof fn lemma_first_sep_le_len(s: Seq<char>)
    ensures
        first_sep(s) <= s.len(),
    decreases s.len(),
{
    if s.len() > 0 && !sep_at(s, 0) {
        lemma_first_sep_le_len(s.drop_first());
    }
}

/// `first_sep` is the least position holding the separator.
proof fn lemma_first_sep_found(s: Seq<char>, k: int)
    requires
        0 <= k,
        forall|j: int| 0 <= j < k ==> !sep_at(s, j),
        sep_at(s, k),
    ensures
        first_sep(s) == k,
    decreases k,
{
    if k > 0 {
        assert(!sep_at(s, 0));
        assert(sep_at(s.drop_first(), k - 1));
        assert forall|j: int| 0 <= j < k - 1 implies !sep_at(s.drop_first(), j) by {
            if sep_at(s.drop_first(), j) {
                assert(sep_at(s, j + 1));
            }
        }
        lemma_first_sep_found(s.drop_first(), k - 1);
    }
}

/// Without a separator anywhere, `first_sep` is the line's length.
proof fn lemma_first_sep_none(s: Seq<char>)
    requires
        forall|j: int| !sep_at(s, j),
    ensures
        first_sep(s) == s.len(),
    decreases s.len(),
{
    if s.len() > 0 {
        assert(!sep_at(s, 0));
        assert forall|j: int| !sep_at(s.drop_first(), j) by {
            if sep_at(s.drop_first(), j) {
                assert(sep_at(s, j + 1));
            }
        }
        lemma_first_sep_none(s.drop_first());
    }
}

/// A kept non-digit character in `s` survives into the stripped string.
proof fn lemma_strip_nondigit(s: Seq<char>, i: int)
    requires
        0 <= i < s.len(),
        keep_time_char(s[i]),
        !is_digit_char(s[i]),
    ensures
        !all_digits(strip_time_seps(s)),
    decreases s.len(),
{
    let st = strip_time_seps(s);
    let st0 = strip_time_seps(s.drop_last());
    if i == s.len() - 1 {
        assert(st == st0.push(s[i]));
        assert(st[st.len() - 1] == s[i]);
        assert(!all_digits(st));
    } else {
        lemma_strip_nondigit(s.drop_last(), i);
        assert(exists|j: int|
            0 <= j < st0.len() && !is_digit_char(#[trigger] st0[j]));
        let j = choose|j: int| 0 <= j < st0.len() && !is_digit_char(#[trigger] st0[j]);
        assert(st[j] == st0[j]);
        assert(!all_digits(st));
    }
}

/// Digit strings denote non-negative values.
proof fn lemma_digits_val_nonneg(s: Seq<char>)
    requires
        all_digits(s),
    ensures
        digits_val(s) >= 0,
    decreases s.len(),
{
    if s.len() > 0 {
        assert(forall|i: int|
            0 <= i < s.drop_last().len() ==> is_digit_char(#[trigger] s.drop_last()[i]));
        lemma_digits_val_nonneg(s.drop_last());
    }
}

proof fn lemma_pow10_ge_1(k: nat)
    ensures
        pow10(k) >= 1,
    decreases k,
{
    if k > 0 {
        lemma_pow10_ge_1((k - 1) as nat);
    }
}

/// The value of a concatenated digit string: the prefix shifted left by the
/// suffix's width, plus the suffix.
proof fn lemma_digits_val_append(p: Seq<char>, t: Seq<char>)
    ensures
        digits_val(p + t) == digits_val(p) * pow10(t.len()) + digits_val(t),
    decreases t.len(),
{
    if t.len() == 0 {
        assert(p + t =~= p);
    } else {
        let t0 = t.drop_last();
        lemma_digits_val_append(p, t0);
        assert((p + t).drop_last() =~= p + t0);
        assert((p + t).last() == t.last());
        let a = digits_val(p);
        let b = pow10(t0.len());
        assert(10 * (a * b) == a * (10 * b)) by (nonlinear_arith);
    }
}

fn sep_at_exec(s: &str, i: usize, n: usize) -> (r: bool)
    requires
        n == s@.len(),
        i + 5 <= n,
    ensures
        r == sep_at(s@, i as int),
{
    s.get_char(i) == ' ' && s.get_char(i + 1) == '-' && s.get_char(i + 2) == '-' && s.get_char(
        i + 3,
    ) == '>' && s.get_char(i + 4) == ' '
}

/// The position of the first ` --> ` separator in `s`, or its length.
fn find_sep(s: &str) -> (k: usize)
    ensures
        k == first_sep(s@),
        k <= s@.len(),
{
    let n = s.unicode_len();
    let mut i: usize = 0;
    loop
        invariant
            n == s@.len(),
            i <= n,
            forall|j: int| 0 <= j < i ==> !sep_at(s@, j),
        ensures
            i <= n,
            n == s@.len(),
            (n - i < 5 && first_sep(s@) == s@.len()) || (n - i >= 5 && i == first_sep(s@)),
        decreases n - i,
    {
        if n - i < 5 {
            proof {
                assert(forall|j: int| #[trigger] sep_at(s@, j) ==> 0 <= j < i);
                lemma_first_sep_none(s@);
            }
            break ;
        }
        if sep_at_exec(s, i, n) {
            proof {
                lemma_first_sep_found(s@, i as int);
            }
            break ;
        }
        i = i + 1;
    }
    proof {
        lemma_first_sep_le_len(s@);
    }
    if n - i < 5 {
        n
    } else {
        i
    }
}

/// The ordering key of a timing line: the part before the first ` --> `
/// separator, with `:` and `.` removed, read as an unsigned integer.
/// Fails when the line holds no ` --> ` separator, or when what is left of
/// the start part is empty, holds a non-digit character, or denotes a
/// value too large for a machine word.
pub fn get_clue_number(clue: &str) -> (r: Result<usize, VttError>)
    ensures
        r is Ok <==> timing_valid(clue@),
        r is Ok ==> r->Ok_0 as int == time_key_of(clue@),
        r is Err ==> r->Err_0 == VttError::Parse,
{
    let n = clue.unicode_len();
    let k = find_sep(clue);
    if k == n {
        return Err(VttError::Parse);
    }
    let ghost sp = start_part(clue@);
    proof {
        assert(sp.len() == k);
        assert(forall|j: int| 0 <= j < k ==> sp[j] == clue@[j]);
    }
    let mut digits: Vec<u8> = Vec::new();
    let mut i: usize = 0;
    proof {
        assert(sp.take(0) =~= Seq::<char>::empty());
    }
    while i < k
        invariant
            k <= clue@.len(),
            i <= k,
            sp == start_part(clue@),
            sp.len() == k,
            forall|j: int| 0 <= j < k ==> sp[j] == clue@[j],
            digits@.len() == strip_time_seps(sp.take(i as int)).len(),
            all_digits(strip_time_seps(sp.take(i as int))),
            forall|m: int|
                0 <= m < digits@.len() ==> digits@[m] as int == digit_val(
                    #[trigger] strip_time_seps(sp.take(i as int))[m],
                ),
        decreases k - i,
    {
        let c = clue.get_char(i);
        let ghost dprev = strip_time_seps(sp.take(i as int));
        proof {
            assert(sp.take(i + 1) =~= sp.take(i as int).push(sp[i as int]));
            assert(sp[i as int] == c);
            assert(sp.take(i as int).push(c).drop_last() =~= sp.take(i as int));
        }
        if c == ':' || c == '.' {
            proof {
                assert(strip_time_seps(sp.take(i + 1)) == dprev);
            }
        } else {
            let v = c as u32;
            if v < '0' as u32 || v > '9' as u32 {
                proof {
                    lemma_strip_nondigit(sp, i as int);
                }
                return Err(VttError::Parse);
            }
            let dg = (v - '0' as u32) as u8;
            digits.push(dg);
            proof {
                assert(strip_time_seps(sp.take(i + 1)) == dprev.push(c));
                assert(forall|m: int|
                    0 <= m < dprev.len() ==> #[trigger] dprev.push(c)[m] == dprev[m]);
            }
        }
        i = i + 1;
    }
    let ghost d = strip_time_seps(sp);
    proof {
        assert(sp.take(k as int) =~= sp);
    }
    if digits.len() == 0 {
        return Err(VttError::Parse);
    }
    let mut acc: usize = 0;
    let mut m: usize = 0;
    let nd = digits.len();
    proof {
        assert(d.take(0) =~= Seq::<char>::empty());
    }
    while m < nd
        invariant
            nd == digits@.len(),
            m <= nd,
            d == strip_time_seps(start_part(clue@)),
            digits@.len() == d.len(),
            d.len() > 0,
            all_digits(d),
            forall|t: int| 0 <= t < d.len() ==> digits@[t] as int == digit_val(#[trigger] d[t]),
            acc as int == digits_val(d.take(m as int)),
        decreases nd - m,
    {
        let dg = digits[m] as usize;
        proof {
            assert(is_digit_char(d[m as int]));
            assert(0 <= dg <= 9);
            assert(d.take(m + 1).drop_last() =~= d.take(m as int));
            assert(d.take(m + 1).last() == d[m as int]);
        }
        if acc > (usize::MAX - dg) / 10 {
            proof {
                assert(10 * (acc as int) + dg as int > usize::MAX as int) by (nonlinear_arith)
                    requires
                        acc as int > (usize::MAX as int - dg as int) / 10,
                        0 <= dg as int <= 9,
                ;
                assert(digits_val(d.take(m + 1)) == 10 * (acc as int) + dg as int);
                assert(d =~= d.take(m + 1) + d.skip(m + 1));
                lemma_digits_val_append(d.take(m + 1), d.skip(m + 1));
                assert(all_digits(d.skip(m + 1))) by {
                    assert(forall|t: int|
                        0 <= t < d.skip(m + 1).len() ==> #[trigger] d.skip(m + 1)[t] == d[t + m
                            + 1]);
                }
                lemma_digits_val_nonneg(d.skip(m + 1));
                lemma_pow10_ge_1(d.skip(m + 1).len());
                let a = digits_val(d.take(m + 1));
                let p = pow10(d.skip(m + 1).len());
                assert(a * p >= a) by (nonlinear_arith)
                    requires
                        a > 0,
                        p >= 1,
                ;
                assert(digits_val(d) > usize::MAX as int);
            }
            return Err(VttError::Parse);
        }
        proof {
            assert(10 * (acc as int) + dg as int <= usize::MAX as int) by (nonlinear_arith)
                requires
                    acc as int <= (usize::MAX as int - dg as int) / 10,
                    0 <= dg as int <= 9,
            ;
        }
        acc = acc * 10 + dg;
        m = m + 1;
    }
    proof {
        assert(d.take(nd as int) =~= d);
    }
    Ok(acc)
}

} // verus!

