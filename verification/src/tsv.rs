//! The tab-separated grammar of the spreadsheet: a blob is split into lines
//! on newlines, a line into fields on tabs, and every field is trimmed.
//! Splitting keeps empty pieces, so a row's field count is visible to the
//! structural check the import applies.

use vstd::prelude::*;

use crate::text::{trim_seq, trimmed};

verus! {

/// `s` split on the separator `c`: the pieces between separators, in order,
/// empty pieces kept. There is always at least one piece.
pub open spec fn split_char(s: Seq<char>, c: char) -> Seq<Seq<char>>
    decreases s.len(),
{
    if s.len() == 0 {
        seq![Seq::<char>::empty()]
    } else if s[0] == c {
        seq![Seq::<char>::empty()] + split_char(s.drop_first(), c)
    } else {
        let rest = split_char(s.drop_first(), c);
        seq![seq![s[0]] + rest[0]] + rest.drop_first()
    }
}

pub proof fn lemma_split_len(s: Seq<char>, c: char)
    ensures
        split_char(s, c).len() >= 1,
    decreases s.len(),
{
    if s.len() > 0 {
        lemma_split_len(s.drop_first(), c);
    }
}

/// Splitting at the first separator: if nothing before position `m` is the
/// separator, the first piece runs up to `m`.
proof fn lemma_split_at(s: Seq<char>, c: char, m: int)
    requires
        0 <= m <= s.len(),
        forall|k: int| 0 <= k < m ==> s[k] != c,
        m < s.len() ==> s[m] == c,
    ensures
        m == s.len() ==> split_char(s, c) == seq![s],
        m < s.len() ==> split_char(s, c) == seq![s.subrange(0, m)] + split_char(
            s.subrange(m + 1, s.len() as int),
            c,
        ),
    decreases m,
{
    if m == 0 {
        if s.len() == 0 {
            assert(seq![Seq::<char>::empty()] =~~= seq![s]);
        } else if m < s.len() {
            assert(s.subrange(0, 0) =~= Seq::<char>::empty());
            assert(s.subrange(1, s.len() as int) =~= s.drop_first());
        }
    } else {
        let t = s.drop_first();
        lemma_split_len(t, c);
        assert(s[0] != c);
        let rest = split_char(t, c);
        assert(forall|k: int| 0 <= k < m - 1 ==> t[k] != c);
        lemma_split_at(t, c, m - 1);
        if m == s.len() {
            assert(rest == seq![t]);
            assert(seq![s[0]] + rest[0] =~= s);
            assert(rest.drop_first() =~= Seq::<Seq<char>>::empty());
            assert(split_char(s, c) =~= seq![s]);
        } else {
            assert(rest == seq![t.subrange(0, m - 1)] + split_char(
                t.subrange(m, t.len() as int),
                c,
            ));
            assert(rest[0] == t.subrange(0, m - 1));
            assert(seq![s[0]] + t.subrange(0, m - 1) =~= s.subrange(0, m));
            assert(rest.drop_first() =~= split_char(t.subrange(m, t.len() as int), c));
            assert(t.subrange(m, t.len() as int) =~= s.subrange(m + 1, s.len() as int));
            assert(split_char(s, c) =~= seq![s.subrange(0, m)] + split_char(
                s.subrange(m + 1, s.len() as int),
                c,
            ));
        }
    }
}

/// Split `s` on `c`, as [`split_char`] describes.
pub(crate) fn split_str<'a>(s: &'a str, c: char) -> (r: Vec<&'a str>)
    ensures
        r@.map_values(|t: &str| t@) == split_char(s@, c),
{
    let ghost view_of = |t: &str| t@;
    let len = s.unicode_len();
    let mut r: Vec<&'a str> = Vec::new();
    let mut start: usize = 0;
    let mut i: usize = 0;
    proof {
        assert(s@.subrange(0, len as int) =~= s@);
        assert(r@.map_values(view_of) + split_char(s@, c) =~= split_char(s@, c));
    }
    while i < len
        invariant
            start <= i <= len,
            len == s@.len(),
            view_of == (|t: &str| t@),
            forall|k: int| start <= k < i ==> s@[k] != c,
            split_char(s@, c) == r@.map_values(view_of) + split_char(
                s@.subrange(start as int, len as int),
                c,
            ),
        decreases len - i,
    {
        if s.get_char(i) == c {
            let piece = s.substring_char(start, i);
            proof {
                let t = s@.subrange(start as int, len as int);
                lemma_split_at(t, c, i - start);
                assert(t.subrange(0, i - start) =~= s@.subrange(start as int, i as int));
                assert(t.subrange(i - start + 1, t.len() as int) =~= s@.subrange(
                    i + 1,
                    len as int,
                ));
                assert(r@.push(piece).map_values(view_of) =~= r@.map_values(view_of).push(
                    piece@,
                ));
                assert(r@.map_values(view_of) + (seq![piece@] + split_char(
                    s@.subrange(i + 1, len as int),
                    c,
                )) =~= r@.push(piece).map_values(view_of) + split_char(
                    s@.subrange(i + 1, len as int),
                    c,
                ));
            }
            r.push(piece);
            start = i + 1;
        }
        i = i + 1;
    }
    let piece = s.substring_char(start, len);
    proof {
        let t = s@.subrange(start as int, len as int);
        lemma_split_at(t, c, (len - start) as int);
        assert(r@.push(piece).map_values(view_of) =~= r@.map_values(view_of).push(piece@));
        assert(r@.map_values(view_of) + seq![t] =~= r@.push(piece).map_values(view_of));
    }
    r.push(piece);
    r
}

/// The trimmed fields of one line.
pub open spec fn fields_spec(line: Seq<char>) -> Seq<Seq<char>> {
    split_char(line, '\t').map_values(|f: Seq<char>| trim_seq(f))
}

/// Split a line on tabs and trim every field.
pub(crate) fn fields_of(line: &str) -> (r: Vec<String>)
    ensures
        r@.map_values(|f: String| f@) == fields_spec(line@),
{
    let raw = split_str(line, '\t');
    let mut r: Vec<String> = Vec::new();
    let n = raw.len();
    let mut i: usize = 0;
    while i < n
        invariant
            i <= n,
            n == raw@.len(),
            raw@.map_values(|t: &str| t@) == split_char(line@, '\t'),
            r@.len() == i,
            forall|j: int| 0 <= j < i ==> (#[trigger] r@[j])@ == trim_seq(raw@[j]@),
        decreases n - i,
    {
        r.push(trimmed(raw[i]));
        i = i + 1;
    }
    proof {
        let rv = raw@.map_values(|t: &str| t@);
        assert forall|j: int| 0 <= j < n implies #[trigger] fields_spec(line@)[j] == r@.map_values(
            |f: String| f@,
        )[j] by {
            assert(rv[j] == raw@[j]@);
        }
        assert(r@.map_values(|f: String| f@) =~= fields_spec(line@));
    }
    r
}

} // verus!
