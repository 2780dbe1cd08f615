//! Character-level helpers on strings, specified over `Seq<char>`.

use vstd::prelude::*;
use vstd::string::*;

verus! {

/// `true` when `pat` occurs in `s` at position `at`.
pub open spec fn occurs_at(s: Seq<char>, pat: Seq<char>, at: int) -> bool {
    0 <= at && at + pat.len() <= s.len() && s.subrange(at, at + pat.len()) == pat
}

/// `true` when `pat` occurs somewhere in `s`.
pub open spec fn contains_seq(s: Seq<char>, pat: Seq<char>) -> bool {
    exists|at: int| occurs_at(s, pat, at)
}

/// Compares two string slices character by character.
pub fn str_eq(a: &str, b: &str) -> (res: bool)
    ensures
        res == (a@ == b@),
{
    let n = a.unicode_len();
    let m = b.unicode_len();
    if n != m {
        return false;
    }
    let mut i: usize = 0;
    while i < n
        invariant
            n == a@.len(),
            m == b@.len(),
            n == m,
            i <= n,
            forall|j: int| 0 <= j < i ==> a@[j] == b@[j],
        decreases n - i,
    {
        if a.get_char(i) != b.get_char(i) {
            return false;
        }
        i += 1;
    }
    assert(a@ =~= b@);
    true
}


/// The first position at which `pat` occurs in `s` (meaningful when it
/// occurs).
pub open spec fn first_occurrence(s: Seq<char>, pat: Seq<char>) -> int {
    choose|at: int| occurs_at(s, pat, at) && forall|j: int| 0 <= j < at ==> !occurs_at(s, pat, j)
}

/// `s` with its first occurrence of `pat` replaced by `to`; `s` itself when
/// `pat` does not occur.
pub open spec fn replaced_first(s: Seq<char>, pat: Seq<char>, to: Seq<char>) -> Seq<char> {
    if contains_seq(s, pat) {
        let at = first_occurrence(s, pat);
        s.subrange(0, at) + to + s.subrange(at + pat.len(), s.len() as int)
    } else {
        s
    }
}

/// `s` with every single quote written as `'\''`, so that it can stand
/// inside a single-quoted shell word.
pub open spec fn quote_escaped(s: Seq<char>) -> Seq<char>
    decreases s.len(),
{
    if s.len() == 0 {
        Seq::empty()
    } else {
        quote_escaped(s.drop_last()) + if s.last() == '\'' {
            "'\\''"@
        } else {
            seq![s.last()]
        }
    }
}

/// Whether `pat` occurs in `hay` at position `at`.
fn matches_at(hay: &str, pat: &str, at: usize) -> (res: bool)
    requires
        at as int + pat@.len() <= hay@.len(),
    ensures
        res == occurs_at(hay@, pat@, at as int),
{
    let n = hay.unicode_len();
    let m = pat.unicode_len();
    let mut k: usize = 0;
    while k < m
        invariant
            n == hay@.len(),
            m == pat@.len(),
            at as int + m <= hay@.len(),
            k <= m,
            forall|j: int| 0 <= j < k ==> hay@[at + j] == pat@[j],
        decreases m - k,
    {
        if hay.get_char(at + k) != pat.get_char(k) {
            assert(hay@.subrange(at as int, at + m)[k as int] != pat@[k as int]);
            return false;
        }
        k += 1;
    }
    assert(hay@.subrange(at as int, at + m) =~= pat@);
    true
}

/// The first position at which `pat` occurs in `hay`, if any.
pub fn find_first(hay: &str, pat: &str) -> (res: Option<usize>)
    ensures
        res matches Some(at) ==> occurs_at(hay@, pat@, at as int) && forall|j: int| 0 <= j < at ==> !occurs_at(hay@, pat@, j),
        res is None ==> !contains_seq(hay@, pat@),
{
    let n = hay.unicode_len();
    let m = pat.unicode_len();
    if m > n {
        return None;
    }
    if m == 0 {
        assert(hay@.subrange(0, 0) =~= pat@);
        return Some(0);
    }
    let mut at: usize = 0;
    while at <= n - m
        invariant
            n == hay@.len(),
            m == pat@.len(),
            1 <= m <= n,
            at <= n - m + 1,
            forall|j: int| 0 <= j < at ==> !occurs_at(hay@, pat@, j),
        decreases n - m + 1 - at,
    {
        if matches_at(hay, pat, at) {
            return Some(at);
        }
        at += 1;
    }
    None
}

/// Whether `pat` occurs in `hay`.
pub fn contains_str(hay: &str, pat: &str) -> (res: bool)
    ensures
        res == contains_seq(hay@, pat@),
{
    find_first(hay, pat).is_some()
}

/// `s` with its first occurrence of `pat` replaced by `to`.
pub fn replace_first(s: &str, pat: &str, to: &str) -> (res: String)
    ensures
        res@ == replaced_first(s@, pat@, to@),
{
    match find_first(s, pat) {
        None => String::from_str(s),
        Some(at) => {
            proof {
                let f = first_occurrence(s@, pat@);
                assert(occurs_at(s@, pat@, f) && forall|j: int| 0 <= j < f ==> !occurs_at(s@, pat@, j));
                assert(f == at as int) by {
                    if f < at {
                    } else if at < f {
                    }
                }
            }
            let n = s.unicode_len();
            let m = pat.unicode_len();
            let mut res = String::from_str(s.substring_char(0, at));
            res.append(to);
            res.append(s.substring_char(at + m, n));
            res
        },
    }
}

/// `s` with every single quote written as `'\''`.
pub fn escape_single_quotes(s: &str) -> (res: String)
    ensures
        res@ == quote_escaped(s@),
{
    let n = s.unicode_len();
    let mut res = String::new();
    let mut i: usize = 0;
    while i < n
        invariant
            n == s@.len(),
            i <= n,
            res@ == quote_escaped(s@.take(i as int)),
        decreases n - i,
    {
        assert(s@.take(i + 1).drop_last() =~= s@.take(i as int));
        assert(s@.take(i + 1).last() == s@[i as int]);
        if s.get_char(i) == '\'' {
            res.append("'\\''");
        } else {
            let piece = s.substring_char(i, i + 1);
            assert(piece@ =~= seq![s@[i as int]]);
            res.append(piece);
        }
        i += 1;
    }
    assert(s@.take(n as int) =~= s@);
    res
}

/// The text that `String::from_utf8_lossy` makes of a byte sequence.
pub uninterp spec fn lossy_utf8(bytes: Seq<u8>) -> Seq<char>;

/// `String::from_utf8_lossy`: the bytes decoded as UTF-8, invalid sequences
/// replaced; its result is a function of the bytes alone.
#[verifier::external_body]
pub(crate) fn utf8_lossy(bytes: &[u8]) -> (res: String)
    ensures
        res@ == lossy_utf8(bytes@),
{
    String::from_utf8_lossy(bytes).into_owned()
}

/// `r` is a contiguous part of `s`.
pub open spec fn is_slice_of(r: Seq<char>, s: Seq<char>) -> bool {
    exists|i: int, j: int| 0 <= i <= j <= s.len() && r == s.subrange(i, j)
}

/// A whitespace character, as `char::is_whitespace` and `str::trim` define
/// it: the Unicode `White_Space` property.
pub open spec fn is_space(c: char) -> bool {
    let v = c as u32;
    ||| 0x9 <= v && v <= 0xd
    ||| v == 0x20
    ||| v == 0x85
    ||| v == 0xa0
    ||| v == 0x1680
    ||| 0x2000 <= v && v <= 0x200a
    ||| v == 0x2028
    ||| v == 0x2029
    ||| v == 0x202f
    ||| v == 0x205f
    ||| v == 0x3000
}

fn is_space_exec(c: char) -> (res: bool)
    ensures
        res == is_space(c),
{
    let v = c as u32;
    (0x9 <= v && v <= 0xd) || v == 0x20 || v == 0x85 || v == 0xa0 || v == 0x1680
        || (0x2000 <= v && v <= 0x200a) || v == 0x2028 || v == 0x2029 || v == 0x202f || v == 0x205f
        || v == 0x3000
}

/// The text without its leading whitespace.
pub open spec fn trim_start(s: Seq<char>) -> Seq<char>
    decreases s.len(),
{
    if s.len() > 0 && is_space(s[0]) {
        trim_start(s.drop_first())
    } else {
        s
    }
}

/// The text without its trailing whitespace.
pub open spec fn trim_end(s: Seq<char>) -> Seq<char>
    decreases s.len(),
{
    if s.len() > 0 && is_space(s.last()) {
        trim_end(s.drop_last())
    } else {
        s
    }
}

/// What `str::trim` leaves of a text: the text without its leading and
/// trailing whitespace.
pub open spec fn trimmed(s: Seq<char>) -> Seq<char> {
    trim_end(trim_start(s))
}

/// The text without its leading and trailing whitespace, a contiguous part
/// of it (what `str::trim` returns).
pub(crate) fn trim_str(s: &str) -> (res: &str)
    ensures
        res@ == trimmed(s@),
        is_slice_of(res@, s@),
{
    let n = s.unicode_len();
    let mut i: usize = 0;
    assert(s@.subrange(0, n as int) =~= s@);
    while i < n
        invariant
            n == s@.len(),
            i <= n,
            trim_start(s@) == trim_start(s@.subrange(i as int, n as int)),
        ensures
            i <= n,
            trim_start(s@) == trim_start(s@.subrange(i as int, n as int)),
            i < n ==> !is_space(s@[i as int]),
        decreases n - i,
    {
        if !is_space_exec(s.get_char(i)) {
            break;
        }
        assert(s@.subrange(i as int, n as int).drop_first() =~= s@.subrange(i + 1, n as int));
        i += 1;
    }
    proof {
        let t = s@.subrange(i as int, n as int);
        if i < n {
            assert(t[0] == s@[i as int]);
        }
        assert(trim_start(s@) == t);
    }
    let mut j: usize = n;
    while j > i
        invariant
            n == s@.len(),
            i <= j <= n,
            trim_end(s@.subrange(i as int, n as int)) == trim_end(s@.subrange(i as int, j as int)),
        ensures
            i <= j <= n,
            trim_end(s@.subrange(i as int, n as int)) == trim_end(s@.subrange(i as int, j as int)),
            i < j ==> !is_space(s@[j - 1]),
        decreases j,
    {
        if !is_space_exec(s.get_char(j - 1)) {
            break;
        }
        assert(s@.subrange(i as int, j as int).drop_last() =~= s@.subrange(i as int, j - 1));
        j -= 1;
    }
    proof {
        let t = s@.subrange(i as int, j as int);
        if i < j {
            assert(t.last() == s@[j - 1]);
        }
        assert(trim_end(t) == t);
    }
    s.substring_char(i, j)
}

} // verus!
