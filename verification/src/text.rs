//! The character-level model of text: substring containment and splitting
//! into lines, with the executable routines that realize them.

use vstd::prelude::*;

verus! {

/// `needle` occurs in `hay` as a contiguous run of characters starting at `i`.
pub open spec fn occurs_at(hay: Seq<char>, needle: Seq<char>, i: int) -> bool {
    &&& 0 <= i
    &&& i + needle.len() <= hay.len()
    &&& hay.subrange(i, i + needle.len()) == needle
}

/// `needle` occurs somewhere in `hay` as a contiguous run of characters.
/// An empty needle occurs in every haystack.
pub open spec fn contains_seq(hay: Seq<char>, needle: Seq<char>) -> bool {
    exists|i: int| occurs_at(hay, needle, i)
}

/// An empty needle occurs in every haystack, at position zero.
pub proof fn lemma_contains_empty(hay: Seq<char>)
    ensures
        contains_seq(hay, Seq::<char>::empty()),
{
    assert(hay.subrange(0, 0 + Seq::<char>::empty().len() as int) =~= Seq::<char>::empty());
    assert(occurs_at(hay, Seq::<char>::empty(), 0));
}

/// Character-by-character equality test for string slices.
pub fn str_eq(a: &str, b: &str) -> (r: bool)
    ensures
        r == (a@ == b@),
{
    let n = a.unicode_len();
    if n != b.unicode_len() {
        return false;
    }
    let mut i: usize = 0;
    while i < n
        invariant
            n == a@.len(),
            n == b@.len(),
            i <= n,
            forall|k: int| 0 <= k < i ==> a@[k] == #[trigger] b@[k],
        decreases n - i,
    {
        if a.get_char(i) != b.get_char(i) {
            return false;
        }
        i += 1;
    }
    proof {
        assert(a@ =~= b@);
    }
    true
}

/// Whether `needle` occurs in `hay` starting at position `i`.
fn match_at(hay: &str, needle: &str, i: usize) -> (r: bool)
    requires
        i + needle@.len() <= hay@.len(),
        hay@.len() <= usize::MAX,
    ensures
        r == occurs_at(hay@, needle@, i as int),
{
    let m = needle.unicode_len();
    let mut j: usize = 0;
    while j < m
        invariant
            m == needle@.len(),
            i + m <= hay@.len(),
            hay@.len() <= usize::MAX,
            j <= m,
            forall|t: int| 0 <= t < j ==> hay@[i + t] == #[trigger] needle@[t],
        decreases m - j,
    {
        if hay.get_char(i + j) != needle.get_char(j) {
            proof {
                assert(hay@.subrange(i as int, i + needle@.len())[j as int] == hay@[i + j]);
            }
            return false;
        }
        j += 1;
    }
    proof {
        assert(hay@.subrange(i as int, i + needle@.len()) =~= needle@);
    }
    true
}

/// Substring containment test: whether `needle` occurs in `hay` as a
/// contiguous run of characters. An empty needle is found in any haystack.
pub fn contains(hay: &str, needle: &str) -> (r: bool)
    ensures
        r == contains_seq(hay@, needle@),
{
    let n = hay.unicode_len();
    let m = needle.unicode_len();
    if m == 0 {
        proof {
            assert(needle@ =~= Seq::<char>::empty());
            lemma_contains_empty(hay@);
        }
        return true;
    }
    if m > n {
        return false;
    }
    let mut i: usize = 0;
    while i <= n - m
        invariant
            n == hay@.len(),
            m == needle@.len(),
            0 < m <= n,
            i <= n - m + 1,
            forall|k: int| 0 <= k < i ==> !occurs_at(hay@, needle@, k),
        decreases n - i,
    {
        if match_at(hay, needle, i) {
            return true;
        }
        i += 1;
    }
    proof {
        assert forall|k: int| !occurs_at(hay@, needle@, k) by {
            if 0 <= k < i as int {
                assert(!occurs_at(hay@, needle@, k));
            }
        }
    }
    false
}

/// One trailing carriage return is dropped from the text of a line, so that a
/// carriage-return-line-feed pair counts as a single line break.
pub open spec fn strip_cr(line: Seq<char>) -> Seq<char> {
    if line.len() > 0 && line.last() == '\r' {
        line.drop_last()
    } else {
        line
    }
}

/// Position of the first line feed of `s`, or `s.len()` if there is none.
pub open spec fn first_newline(s: Seq<char>) -> nat
    decreases s.len(),
{
    if s.len() == 0 {
        0
    } else if s[0] == '\n' {
        0
    } else {
        1 + first_newline(s.drop_first())
    }
}

proof fn lemma_first_newline_is(s: Seq<char>, k: int)
    requires
        0 <= k <= s.len(),
        forall|j: int| 0 <= j < k ==> s[j] != '\n',
        k < s.len() ==> s[k] == '\n',
    ensures
        first_newline(s) == k,
    decreases s.len(),
{
    if s.len() == 0 {
    } else if s[0] == '\n' {
        assert(k > 0 ==> s[0] != '\n');
    } else {
        assert(s[0] != '\n');
        assert(k != 0);
        let rest = s.drop_first();
        assert forall|j: int| 0 <= j < k - 1 implies rest[j] != '\n' by {
            assert(s[j + 1] != '\n');
        }
        assert(k - 1 < rest.len() ==> rest[k - 1] == s[k]);
        lemma_first_newline_is(rest, k - 1);
    }
}

/// The lines of `s`: the pieces between line breaks, in source order. Text is
/// broken at each line feed, and a carriage return standing immediately
/// before a line feed is dropped. A final piece without a terminator is still
/// a line, a final line break opens no extra empty line, and empty text has
/// no lines.
pub open spec fn lines_of(s: Seq<char>) -> Seq<Seq<char>>
    decreases s.len(),
{
    if s.len() == 0 {
        Seq::empty()
    } else {
        let i = first_newline(s);
        if i < s.len() {
            seq![strip_cr(s.subrange(0, i as int))] + lines_of(
                s.subrange(i as int + 1, s.len() as int),
            )
        } else {
            seq![s]
        }
    }
}

/// Position of the first line feed at or after `from`, or the text length if
/// there is none.
fn find_newline(contents: &str, from: usize) -> (j: usize)
    requires
        from <= contents@.len(),
    ensures
        from <= j <= contents@.len(),
        forall|k: int| from <= k < j ==> contents@[k] != '\n',
        j < contents@.len() ==> contents@[j as int] == '\n',
{
    let n = contents.unicode_len();
    let mut j: usize = from;
    while j < n
        invariant
            n == contents@.len(),
            from <= j <= n,
            forall|k: int| from <= k < j ==> contents@[k] != '\n',
        decreases n - j,
    {
        if contents.get_char(j) == '\n' {
            return j;
        }
        j += 1;
    }
    j
}

/// Split text into its lines, as [`lines_of`] describes them.
pub fn split_lines(contents: &str) -> (r: Vec<String>)
    ensures
        r.deep_view() == lines_of(contents@),
{
    let n = contents.unicode_len();
    let mut result: Vec<String> = Vec::new();
    let mut pos: usize = 0;
    proof {
        assert(contents@.subrange(0, n as int) =~= contents@);
        assert(result.deep_view() =~= Seq::<Seq<char>>::empty());
        assert(Seq::<Seq<char>>::empty() + lines_of(contents@) =~= lines_of(contents@));
    }
    while pos < n
        invariant
            n == contents@.len(),
            pos <= n,
            lines_of(contents@) == result.deep_view() + lines_of(
                contents@.subrange(pos as int, n as int),
            ),
        decreases n - pos,
    {
        let ghost prev = result.deep_view();
        let ghost t = contents@.subrange(pos as int, n as int);
        let j = find_newline(contents, pos);
        if j < n {
            let end = if j > pos && contents.get_char(j - 1) == '\r' {
                j - 1
            } else {
                j
            };
            let line = contents.substring_char(pos, end).to_owned();
            result.push(line);
            proof {
                let piece = contents@.subrange(pos as int, end as int);
                assert forall|w: int| 0 <= w < j - pos implies t[w] != '\n' by {
                    assert(contents@[pos + w] != '\n');
                }
                assert(t[j - pos] == contents@[j as int]);
                lemma_first_newline_is(t, j - pos);
                let head = contents@.subrange(pos as int, j as int);
                assert(t.subrange(0, j - pos) =~= head);
                if j > pos && contents@[j - 1] == '\r' {
                    assert(head.last() == '\r');
                    assert(head.drop_last() =~= piece);
                } else {
                    if j > pos {
                        assert(head.last() == contents@[j - 1]);
                    }
                    assert(head =~= piece);
                }
                assert(strip_cr(head) == piece);
                let tail = contents@.subrange(j + 1, n as int);
                assert(t.subrange(j - pos + 1, t.len() as int) =~= tail);
                assert(lines_of(t) == seq![piece] + lines_of(tail));
                assert(result.deep_view() =~= prev.push(piece));
                assert(prev.push(piece) =~= prev + seq![piece]);
                assert((prev + seq![piece]) + lines_of(tail) =~= prev + (seq![piece]
                    + lines_of(tail)));
            }
            pos = j + 1;
        } else {
            let line = contents.substring_char(pos, n).to_owned();
            result.push(line);
            proof {
                assert forall|w: int| 0 <= w < t.len() implies t[w] != '\n' by {
                    assert(contents@[pos + w] != '\n');
                }
                lemma_first_newline_is(t, t.len() as int);
                assert(lines_of(t) == seq![t]);
                assert(result.deep_view() =~= prev.push(t));
                assert(prev.push(t) =~= prev + seq![t]);
            }
            pos = n;
        }
    }
    proof {
        assert(contents@.subrange(pos as int, n as int) =~= Seq::<char>::empty());
        assert(lines_of(Seq::<char>::empty()) =~= Seq::<Seq<char>>::empty());
        assert(result.deep_view() =~= result.deep_view() + Seq::<Seq<char>>::empty());
    }
    result
}

} // verus!
