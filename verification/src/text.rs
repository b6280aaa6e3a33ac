//! Name normalization: activity names are compared after trimming
//! surrounding whitespace and folding ASCII letters to lower case.

use vstd::prelude::*;

verus! {

/// Characters stripped from the ends of a name: the ASCII whitespace set.
pub open spec fn is_space(c: char) -> bool {
    c == ' ' || c == '\t' || c == '\n' || c == '\r' || c == '\u{000C}'
}

/// Lower-case image of a single character; only ASCII letters are folded.
pub open spec fn low(c: char) -> char {
    match c {
        'A' => 'a',
        'B' => 'b',
        'C' => 'c',
        'D' => 'd',
        'E' => 'e',
        'F' => 'f',
        'G' => 'g',
        'H' => 'h',
        'I' => 'i',
        'J' => 'j',
        'K' => 'k',
        'L' => 'l',
        'M' => 'm',
        'N' => 'n',
        'O' => 'o',
        'P' => 'p',
        'Q' => 'q',
        'R' => 'r',
        'S' => 's',
        'T' => 't',
        'U' => 'u',
        'V' => 'v',
        'W' => 'w',
        'X' => 'x',
        'Y' => 'y',
        'Z' => 'z',
        _ => c,
    }
}

pub open spec fn trim_front(s: Seq<char>) -> Seq<char>
    decreases s.len(),
{
    if s.len() > 0 && is_space(s[0]) {
        trim_front(s.drop_first())
    } else {
        s
    }
}

pub open spec fn trim_back(s: Seq<char>) -> Seq<char>
    decreases s.len(),
{
    if s.len() > 0 && is_space(s.last()) {
        trim_back(s.drop_last())
    } else {
        s
    }
}

/// A name with surrounding whitespace removed.
pub open spec fn trim_seq(s: Seq<char>) -> Seq<char> {
    trim_back(trim_front(s))
}

pub open spec fn lower_seq(s: Seq<char>) -> Seq<char> {
    s.map_values(|c: char| low(c))
}

/// The normalized form of a name: trimmed, then folded to lower case.
/// Two names denote the same activity within a scope exactly when their
/// normalized forms agree.
pub open spec fn norm(s: Seq<char>) -> Seq<char> {
    lower_seq(trim_seq(s))
}

proof fn lemma_trim_front_subrange(s: Seq<char>, i: int)
    requires
        0 <= i <= s.len(),
        forall|j: int| 0 <= j < i ==> is_space(#[trigger] s[j]),
        i < s.len() ==> !is_space(s[i]),
    ensures
        trim_front(s) == s.subrange(i, s.len() as int),
    decreases i,
{
    if i == 0 {
        assert(trim_front(s) =~= s.subrange(0, s.len() as int));
    } else {
        assert(is_space(s[0]));
        let t = s.drop_first();
        assert(forall|j: int| 0 <= j < i - 1 ==> is_space(#[trigger] t[j]));
        lemma_trim_front_subrange(t, i - 1);
        assert(t.subrange(i - 1, t.len() as int) =~= s.subrange(i, s.len() as int));
    }
}

proof fn lemma_trim_back_subrange(s: Seq<char>, j: int)
    requires
        0 <= j <= s.len(),
        forall|k: int| j <= k < s.len() ==> is_space(#[trigger] s[k]),
        j > 0 ==> !is_space(s[j - 1]),
    ensures
        trim_back(s) == s.subrange(0, j),
    decreases s.len() - j,
{
    if j == s.len() {
        assert(trim_back(s) =~= s.subrange(0, j));
    } else {
        assert(is_space(s.last()));
        let t = s.drop_last();
        assert(forall|k: int| j <= k < t.len() ==> is_space(#[trigger] t[k]));
        lemma_trim_back_subrange(t, j);
        assert(t.subrange(0, j) =~= s.subrange(0, j));
    }
}

proof fn lemma_trim_front_no_space(s: Seq<char>)
    ensures
        trim_front(s).len() > 0 ==> !is_space(trim_front(s)[0]),
    decreases s.len(),
{
    if s.len() > 0 && is_space(s[0]) {
        lemma_trim_front_no_space(s.drop_first());
    }
}

proof fn lemma_trim_back_no_space(s: Seq<char>)
    ensures
        trim_back(s).len() <= s.len(),
        trim_back(s).len() > 0 ==> !is_space(trim_back(s).last()),
        trim_back(s).len() > 0 ==> trim_back(s)[0] == s[0],
    decreases s.len(),
{
    if s.len() > 0 && is_space(s.last()) {
        lemma_trim_back_no_space(s.drop_last());
    }
}

/// Trimming is idempotent, so normalizing a trimmed name gives the same key
/// as normalizing the name itself.
pub proof fn lemma_norm_trim(s: Seq<char>)
    ensures
        trim_seq(trim_seq(s)) == trim_seq(s),
        norm(trim_seq(s)) == norm(s),
{
    let t = trim_seq(s);
    lemma_trim_front_no_space(s);
    lemma_trim_back_no_space(trim_front(s));
    if t.len() > 0 {
        assert(!is_space(t[0]));
        assert(!is_space(t.last()));
    }
    assert(trim_front(t) == t);
    assert(trim_back(t) == t);
}

pub(crate) fn is_space_char(c: char) -> (r: bool)
    ensures
        r == is_space(c),
{
    c == ' ' || c == '\t' || c == '\n' || c == '\r' || c == '\u{000C}'
}

pub(crate) fn lower_char(c: char) -> (r: char)
    ensures
        r == low(c),
{
    match c {
        'A' => 'a',
        'B' => 'b',
        'C' => 'c',
        'D' => 'd',
        'E' => 'e',
        'F' => 'f',
        'G' => 'g',
        'H' => 'h',
        'I' => 'i',
        'J' => 'j',
        'K' => 'k',
        'L' => 'l',
        'M' => 'm',
        'N' => 'n',
        'O' => 'o',
        'P' => 'p',
        'Q' => 'q',
        'R' => 'r',
        'S' => 's',
        'T' => 't',
        'U' => 'u',
        'V' => 'v',
        'W' => 'w',
        'X' => 'x',
        'Y' => 'y',
        'Z' => 'z',
        _ => c,
    }
}

/// Character bounds of the trimmed middle of `s`: `trim_seq(s@)` is exactly
/// `s@` between the two returned indices.
pub(crate) fn trim_bounds(s: &str) -> (r: (usize, usize))
    ensures
        r.0 <= r.1 <= s@.len(),
        trim_seq(s@) == s@.subrange(r.0 as int, r.1 as int),
{
    let len = s.unicode_len();
    let mut a: usize = 0;
    while a < len && is_space_char(s.get_char(a))
        invariant
            a <= len,
            len == s@.len(),
            forall|j: int| 0 <= j < a ==> is_space(#[trigger] s@[j]),
        decreases len - a,
    {
        a = a + 1;
    }
    proof {
        lemma_trim_front_subrange(s@, a as int);
    }
    let ghost t = s@.subrange(a as int, s@.len() as int);
    if a == len {
        proof {
            lemma_trim_back_subrange(t, 0);
            assert(trim_seq(s@) =~= s@.subrange(a as int, a as int));
        }
        return (a, a);
    }
    let mut b: usize = len;
    while b > a && is_space_char(s.get_char(b - 1))
        invariant
            a <= b <= len,
            len == s@.len(),
            forall|k: int| b <= k < len ==> is_space(#[trigger] s@[k]),
        decreases b,
    {
        b = b - 1;
    }
    proof {
        assert(!is_space(s@[a as int]));
        assert(b > a);
        assert(forall|k: int| b - a <= k < t.len() ==> is_space(#[trigger] t[k]));
        lemma_trim_back_subrange(t, b - a);
        assert(t.subrange(0, b - a) =~= s@.subrange(a as int, b as int));
    }
    (a, b)
}

/// The trimmed form of `s` as an owned string.
pub(crate) fn trimmed(s: &str) -> (r: String)
    ensures
        r@ == trim_seq(s@),
{
    let (a, b) = trim_bounds(s);
    s.substring_char(a, b).to_owned()
}

/// Whether two strings hold the same characters.
pub(crate) fn str_eq(a: &str, b: &str) -> (r: bool)
    ensures
        r == (a@ == b@),
{
    let n = a.unicode_len();
    if n != b.unicode_len() {
        return false;
    }
    let mut k: usize = 0;
    while k < n
        invariant
            k <= n,
            n == a@.len() == b@.len(),
            forall|j: int| 0 <= j < k ==> a@[j] == b@[j],
        decreases n - k,
    {
        if a.get_char(k) != b.get_char(k) {
            return false;
        }
        k = k + 1;
    }
    proof {
        assert(a@ =~= b@);
    }
    true
}

/// Whether two names agree once normalized.
pub(crate) fn norm_eq(a: &str, b: &str) -> (r: bool)
    ensures
        r == (norm(a@) == norm(b@)),
{
    let (a0, a1) = trim_bounds(a);
    let (b0, b1) = trim_bounds(b);
    if a1 - a0 != b1 - b0 {
        proof {
            assert(norm(a@).len() == a1 - a0);
            assert(norm(b@).len() == b1 - b0);
        }
        return false;
    }
    let n = a1 - a0;
    let mut k: usize = 0;
    while k < n
        invariant
            k <= n,
            a0 + n <= a@.len(),
            b0 + n <= b@.len(),
            n == a1 - a0 == b1 - b0,
            a1 <= a@.len(),
            b1 <= b@.len(),
            trim_seq(a@) == a@.subrange(a0 as int, a1 as int),
            trim_seq(b@) == b@.subrange(b0 as int, b1 as int),
            forall|j: int| 0 <= j < k ==> #[trigger] norm(a@)[j] == norm(b@)[j],
        decreases n - k,
    {
        if lower_char(a.get_char(a0 + k)) != lower_char(b.get_char(b0 + k)) {
            proof {
                assert(norm(a@)[k as int] == low(a@[a0 + k]));
                assert(norm(b@)[k as int] == low(b@[b0 + k]));
            }
            return false;
        }
        proof {
            assert(norm(a@)[k as int] == low(a@[a0 + k]));
            assert(norm(b@)[k as int] == low(b@[b0 + k]));
        }
        k = k + 1;
    }
    proof {
        assert(norm(a@) =~= norm(b@));
    }
    true
}

} // verus!
