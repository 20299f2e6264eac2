//! Character-level text helpers: whitespace classification, trimming,
//! line splitting, and searching for the `-->` timing marker.

use vstd::prelude::*;
use vstd::string::StrSliceExecFns;
use vstd::string::StringExecFns;

verus! {

/// The whitespace characters this library recognises when trimming and
/// when deciding that a line is blank: the Unicode `White_Space` code
/// points, as `char::is_whitespace` classifies them.
pub open spec fn is_space_char(c: char) -> bool {
    ||| c == ' '
    ||| c == '\t'
    ||| c == '\n'
    ||| c == '\u{b}'
    ||| c == '\u{c}'
    ||| c == '\r'
    ||| c == '\u{85}'
    ||| c == '\u{a0}'
    ||| c == '\u{1680}'
    ||| (0x2000 <= c as u32 && c as u32 <= 0x200a)
    ||| c == '\u{2028}'
    ||| c == '\u{2029}'
    ||| c == '\u{202f}'
    ||| c == '\u{205f}'
    ||| c == '\u{3000}'
}

/// A line is blank when every character in it is whitespace.
pub open spec fn is_blank(s: Seq<char>) -> bool {
    forall|i: int| 0 <= i < s.len() ==> is_space_char(#[trigger] s[i])
}

/// `s` with its leading whitespace removed.
pub open spec fn trim_start_spec(s: Seq<char>) -> Seq<char>
    decreases s.len(),
{
    if s.len() > 0 && is_space_char(s[0]) {
        trim_start_spec(s.drop_first())
    } else {
        s
    }
}

/// `s` with its trailing whitespace removed.
pub open spec fn trim_end_spec(s: Seq<char>) -> Seq<char>
    decreases s.len(),
{
    if s.len() > 0 && is_space_char(s.last()) {
        trim_end_spec(s.drop_last())
    } else {
        s
    }
}

/// `s` with leading and trailing whitespace removed.
pub open spec fn trim_spec(s: Seq<char>) -> Seq<char> {
    trim_end_spec(trim_start_spec(s))
}

/// Trimming the front of `s` keeps exactly the suffix that starts at the
/// first non-whitespace character.
proof fn lemma_trim_start_at(s: Seq<char>, i: int)
    requires
        0 <= i <= s.len(),
        forall|k: int| 0 <= k < i ==> is_space_char(#[trigger] s[k]),
        i < s.len() ==> !is_space_char(s[i]),
    ensures
        trim_start_spec(s) == s.skip(i),
    decreases i,
{
    if i == 0 {
        assert(s.skip(0) =~= s);
    } else {
        lemma_trim_start_at(s.drop_first(), i - 1);
        assert(s.drop_first() =~= s.skip(1));
        assert(s.drop_first().skip(i - 1) =~= s.skip(i));
    }
}

/// Trimming the back of `s` keeps exactly the prefix that ends after the
/// last non-whitespace character.
proof fn lemma_trim_end_at(s: Seq<char>, j: int)
    requires
        0 <= j <= s.len(),
        forall|k: int| j <= k < s.len() ==> is_space_char(#[trigger] s[k]),
        j > 0 ==> !is_space_char(s[j - 1]),
    ensures
        trim_end_spec(s) == s.take(j),
    decreases s.len(),
{
    if s.len() > 0 && is_space_char(s.last()) {
        assert(j < s.len());
        lemma_trim_end_at(s.drop_last(), j);
        assert(s.drop_last().take(j) =~= s.take(j));
    } else {
        if j == s.len() {
            assert(s.take(j) =~= s);
        } else {
            assert(is_space_char(s[j]));
            assert(j == 0);
            assert(s.len() == 0 || !is_space_char(s.last()));
            assert(s.len() == 0);
            assert(s.take(0) =~= s);
        }
    }
}

/// Whether `c` is recognised as whitespace.
pub fn is_space(c: char) -> (r: bool)
    ensures
        r == is_space_char(c),
{
    c == ' ' || c == '\t' || c == '\n' || c == '\u{b}' || c == '\u{c}' || c == '\r' || c == '\u{85}'
        || c == '\u{a0}' || c == '\u{1680}' || (c as u32 >= 0x2000 && c as u32 <= 0x200a) || c
        == '\u{2028}' || c == '\u{2029}' || c == '\u{202f}' || c == '\u{205f}' || c == '\u{3000}'
}

/// Whether every character of `s` is whitespace.
pub fn is_blank_str(s: &str) -> (r: bool)
    ensures
        r == is_blank(s@),
{
    let n = s.unicode_len();
    let mut i: usize = 0;
    loop
        invariant
            n == s@.len(),
            i <= n,
            forall|k: int| 0 <= k < i ==> is_space_char(#[trigger] s@[k]),
        ensures
            (i == n && forall|k: int| 0 <= k < n ==> is_space_char(#[trigger] s@[k])) || (i < n
                && !is_space_char(s@[i as int])),
        decreases n - i,
    {
        if i == n {
            break ;
        }
        let c = s.get_char(i);
        if !is_space(c) {
            break ;
        }
        i = i + 1;
    }
    i == n
}

/// The slice of `s` with leading and trailing whitespace removed.
pub fn trim_str<'a>(s: &'a str) -> (r: &'a str)
    ensures
        r@ == trim_spec(s@),
{
    let n = s.unicode_len();
    let mut i: usize = 0;
    loop
        invariant
            n == s@.len(),
            i <= n,
            forall|k: int| 0 <= k < i ==> is_space_char(#[trigger] s@[k]),
        ensures
            i <= n,
            n == s@.len(),
            forall|k: int| 0 <= k < i ==> is_space_char(#[trigger] s@[k]),
            i < n ==> !is_space_char(s@[i as int]),
        decreases n - i,
    {
        if i == n {
            break ;
        }
        let c = s.get_char(i);
        if !is_space(c) {
            break ;
        }
        i = i + 1;
    }
    let mut j: usize = n;
    loop
        invariant
            n == s@.len(),
            i <= j <= n,
            forall|k: int| j <= k < n ==> is_space_char(#[trigger] s@[k]),
        ensures
            i <= j <= n,
            forall|k: int| j <= k < n ==> is_space_char(#[trigger] s@[k]),
            j > i ==> !is_space_char(s@[j - 1]),
        decreases j,
    {
        if j == i {
            break ;
        }
        let c = s.get_char(j - 1);
        if !is_space(c) {
            break ;
        }
        j = j - 1;
    }
    let r = s.substring_char(i, j);
    proof {
        lemma_trim_start_at(s@, i as int);
        lemma_trim_end_at(s@.skip(i as int), j - i);
        assert(s@.skip(i as int).take(j - i) =~= s@.subrange(i as int, j as int));
    }
    r
}

/// The `-->` timing marker occurs in `s` at position `i`.
pub open spec fn arrow_at(s: Seq<char>, i: int) -> bool {
    &&& 0 <= i
    &&& i + 3 <= s.len()
    &&& s[i] == '-'
    &&& s[i + 1] == '-'
    &&& s[i + 2] == '>'
}

/// The line contains the `-->` timing marker somewhere.
pub open spec fn has_arrow(s: Seq<char>) -> bool {
    exists|i: int| arrow_at(s, i)
}

/// Whether `s` contains the `-->` timing marker.
pub fn contains_arrow(s: &str) -> (r: bool)
    ensures
        r == has_arrow(s@),
{
    let n = s.unicode_len();
    let mut i: usize = 0;
    let mut found = false;
    loop
        invariant_except_break
            !found,
        invariant
            n == s@.len(),
            i <= n,
            forall|j: int| 0 <= j < i ==> !arrow_at(s@, j),
        ensures
            found == has_arrow(s@),
        decreases n - i,
    {
        if n < 3 || i > n - 3 {
            assert(forall|j: int| #[trigger] arrow_at(s@, j) ==> j < i);
            break ;
        }
        if s.get_char(i) == '-' && s.get_char(i + 1) == '-' && s.get_char(i + 2) == '>' {
            assert(arrow_at(s@, i as int));
            found = true;
            break ;
        }
        i = i + 1;
    }
    found
}

/// The position of the first newline in `s`, or `s.len()` if there is none.
pub open spec fn first_nl(s: Seq<char>) -> nat
    decreases s.len(),
{
    if s.len() == 0 {
        0
    } else if s[0] == '\n' {
        0
    } else {
        1 + first_nl(s.drop_first())
    }
}

proof fn lemma_first_nl_le_len(s: Seq<char>)
    ensures
        first_nl(s) <= s.len(),
    decreases s.len(),
{
    if s.len() > 0 && s[0] != '\n' {
        lemma_first_nl_le_len(s.drop_first());
    }
}

/// What `first_nl` points at: no newline lies before it, and it holds one
/// unless the string has none at all.
pub proof fn lemma_first_nl_props(s: Seq<char>)
    ensures
        first_nl(s) <= s.len(),
        forall|j: int| 0 <= j < first_nl(s) ==> #[trigger] s[j] != '\n',
        first_nl(s) < s.len() ==> s[first_nl(s) as int] == '\n',
    decreases s.len(),
{
    if s.len() > 0 && s[0] != '\n' {
        lemma_first_nl_props(s.drop_first());
        assert(forall|j: int|
            1 <= j < first_nl(s) ==> #[trigger] s[j] == s.drop_first()[j - 1]);
        if first_nl(s) < s.len() {
            assert(s[first_nl(s) as int] == s.drop_first()[first_nl(s.drop_first()) as int]);
        }
    }
}

/// `first_nl` is the least index holding a newline.
proof fn lemma_first_nl_at(s: Seq<char>, k: int)
    requires
        0 <= k <= s.len(),
        forall|j: int| 0 <= j < k ==> s[j] != '\n',
        k < s.len() ==> s[k] == '\n',
    ensures
        first_nl(s) == k,
    decreases k,
{
    if k == 0 {
        if s.len() > 0 && s[0] != '\n' {
            assert(k < s.len());
        }
    } else {
        lemma_first_nl_at(s.drop_first(), k - 1);
    }
}

/// A trailing newline never survives a trim.
pub proof fn lemma_trim_drops_trailing_newline(x: Seq<char>)
    ensures
        trim_spec(x + seq!['\n']) == trim_spec(x),
    decreases x.len(),
{
    if x.len() == 0 {
        assert(x + seq!['\n'] =~= seq!['\n']);
        assert(seq!['\n'][0] == '\n');
        assert(is_space_char('\n'));
        assert(seq!['\n'].drop_first() =~= Seq::<char>::empty());
        assert(trim_start_spec(seq!['\n']) == trim_start_spec(Seq::<char>::empty()));
        assert(x + seq!['\n'] == seq!['\n']);
    } else if is_space_char(x[0]) {
        assert((x + seq!['\n'])[0] == x[0]);
        assert((x + seq!['\n']).drop_first() =~= x.drop_first() + seq!['\n']);
        lemma_trim_drops_trailing_newline(x.drop_first());
        assert(trim_start_spec(x + seq!['\n']) == trim_start_spec(x.drop_first() + seq!['\n']));
        assert(trim_start_spec(x) == trim_start_spec(x.drop_first()));
    } else {
        assert((x + seq!['\n'])[0] == x[0]);
        assert(trim_start_spec(x + seq!['\n']) == x + seq!['\n']);
        assert(trim_start_spec(x) == x);
        assert((x + seq!['\n']).last() == '\n');
        assert(is_space_char('\n'));
        assert((x + seq!['\n']).drop_last() =~= x);
        assert(trim_end_spec(x + seq!['\n']) == trim_end_spec(x));
    }
}

/// Splitting starts with the prepended newline-free line.
pub proof fn lemma_split_prepend_line(l: Seq<char>, rest: Seq<char>)
    requires
        forall|i: int| 0 <= i < l.len() ==> #[trigger] l[i] != '\n',
    ensures
        split_lines_spec(l + seq!['\n'] + rest) == seq![l] + split_lines_spec(rest),
{
    let s = l + seq!['\n'] + rest;
    lemma_first_nl_at(s, l.len() as int);
    assert(s.take(l.len() as int) =~= l);
    assert(s.skip(l.len() as int + 1) =~= rest);
}

/// A non-empty string equal to its own trim neither starts nor ends with
/// whitespace.
pub proof fn lemma_trimmed_ends(t: Seq<char>)
    requires
        trim_spec(t) == t,
        t.len() > 0,
    ensures
        !is_space_char(t[0]),
        !is_space_char(t.last()),
{
    lemma_trim_start_len(t);
    lemma_trim_end_len(trim_start_spec(t));
    if is_space_char(t[0]) {
        lemma_trim_start_len(t.drop_first());
        lemma_trim_end_len(trim_start_spec(t.drop_first()));
    }
    if is_space_char(t.last()) {
        lemma_trim_end_len(t.drop_last());
    }
}

proof fn lemma_trim_start_len(s: Seq<char>)
    ensures
        trim_start_spec(s).len() <= s.len(),
    decreases s.len(),
{
    if s.len() > 0 && is_space_char(s[0]) {
        lemma_trim_start_len(s.drop_first());
    }
}

proof fn lemma_trim_end_len(s: Seq<char>)
    ensures
        trim_end_spec(s).len() <= s.len(),
    decreases s.len(),
{
    if s.len() > 0 && is_space_char(s.last()) {
        lemma_trim_end_len(s.drop_last());
    }
}

/// The lines of `s`: the segments between newline characters, the newlines
/// themselves excluded. The empty stream has one empty line.
pub open spec fn split_lines_spec(s: Seq<char>) -> Seq<Seq<char>>
    decreases s.len(),
{
    let k = first_nl(s) as int;
    if k >= s.len() {
        seq![s]
    } else {
        seq![s.take(k)] + split_lines_spec(s.skip(k + 1))
    }
}

/// Splits `s` at each newline character, excluding the newlines.
pub fn split_lines(s: &str) -> (r: Vec<String>)
    ensures
        r.deep_view() == split_lines_spec(s@),
{
    let n = s.unicode_len();
    let mut out: Vec<String> = Vec::new();
    let mut acc = String::new();
    let mut i: usize = 0;
    let ghost mut start: int = 0;
    proof {
        assert(out.deep_view() =~= Seq::<Seq<char>>::empty());
        assert(s@.skip(0) =~= s@);
        assert(Seq::<Seq<char>>::empty() + split_lines_spec(s@) =~= split_lines_spec(s@));
    }
    while i < n
        invariant
            n == s@.len(),
            0 <= start <= i <= n,
            acc@ == s@.subrange(start, i as int),
            forall|j: int| start <= j < i ==> s@[j] != '\n',
            split_lines_spec(s@) == out.deep_view() + split_lines_spec(s@.skip(start)),
        decreases n - i,
    {
        let c = s.get_char(i);
        if c == '\n' {
            let ghost prev = out.deep_view();
            let ghost accv = acc@;
            proof {
                lemma_first_nl_at(s@.skip(start), i - start);
                assert(s@.skip(start).take(i - start) =~= s@.subrange(start, i as int));
                assert(s@.skip(start).skip(i - start + 1) =~= s@.skip(i + 1));
            }
            out.push(acc);
            acc = String::new();
            proof {
                assert(out.deep_view() =~= prev.push(accv));
                assert(prev + (seq![accv] + split_lines_spec(s@.skip(i + 1))) =~= prev.push(accv)
                    + split_lines_spec(s@.skip(i + 1)));
                start = i + 1;
                assert(acc@ =~= s@.subrange(start, i + 1));
            }
        } else {
            let piece = s.substring_char(i, i + 1);
            acc.append(piece);
            proof {
                assert(acc@ =~= s@.subrange(start, i + 1));
            }
        }
        i = i + 1;
    }
    let ghost prev = out.deep_view();
    let ghost accv = acc@;
    proof {
        lemma_first_nl_at(s@.skip(start), n - start);
        assert(s@.skip(start) =~= s@.subrange(start, n as int));
        assert(accv == s@.skip(start));
        assert(split_lines_spec(s@.skip(start)) == seq![accv]);
    }
    out.push(acc);
    proof {
        assert(out.deep_view() =~= prev.push(accv));
        assert(prev + seq![accv] =~= prev.push(accv));
    }
    out
}

} // verus!
