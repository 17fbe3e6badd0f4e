//! The line filter: case-sensitive and case-insensitive search, the laws
//! that hold of them, and the dispatch over a configuration.

use vstd::prelude::*;

use crate::config::Config;
use crate::text::contains;
use crate::text::contains_seq;
use crate::text::lemma_contains_empty;
use crate::text::lines_of;
use crate::text::occurs_at;
use crate::text::split_lines;

verus! {

/// The sequence of characters that Unicode lowercasing produces for `s`.
pub uninterp spec fn lower_of(s: Seq<char>) -> Seq<char>;

/// Relies on str::to_lowercase: full Unicode lowercasing, whose result
/// depends on the characters of the input alone; an empty input gives an
/// empty result.
#[verifier::external_body]
fn lowercase(s: &str) -> (r: String)
    ensures
        r@ == lower_of(s@),
        s@.len() == 0 ==> r@.len() == 0,
{
    s.to_lowercase()
}

/// A line matches a query when the query occurs in it as a contiguous
/// substring.
pub open spec fn line_matches(line: Seq<char>, query: Seq<char>) -> bool {
    contains_seq(line, query)
}

/// A line matches a query case-insensitively when the lowercased form of the
/// line contains the lowercased form of the query.
pub open spec fn ci_line_matches(line: Seq<char>, query: Seq<char>) -> bool {
    contains_seq(lower_of(line), lower_of(query))
}

/// The subsequence of `lines` that match `query`, in their original order.
pub open spec fn matches_in(lines: Seq<Seq<char>>, query: Seq<char>) -> Seq<Seq<char>> {
    lines.filter(|line: Seq<char>| line_matches(line, query))
}

/// The subsequence of `lines` that match `query` case-insensitively, in
/// their original order.
pub open spec fn ci_matches_in(lines: Seq<Seq<char>>, query: Seq<char>) -> Seq<Seq<char>> {
    lines.filter(|line: Seq<char>| ci_line_matches(line, query))
}

/// The lines of `contents` that contain `query`, in source order.
pub open spec fn matching_lines(query: Seq<char>, contents: Seq<char>) -> Seq<Seq<char>> {
    matches_in(lines_of(contents), query)
}

/// The lines of `contents` whose lowercased form contains the lowercased
/// `query`, in source order.
pub open spec fn ci_matching_lines(query: Seq<char>, contents: Seq<char>) -> Seq<Seq<char>> {
    ci_matches_in(lines_of(contents), query)
}

proof fn lemma_matches_in_push(lines: Seq<Seq<char>>, query: Seq<char>, x: Seq<char>)
    ensures
        matches_in(lines.push(x), query) == (if line_matches(x, query) {
            matches_in(lines, query).push(x)
        } else {
            matches_in(lines, query)
        }),
{
    reveal(Seq::filter);
    assert(lines.push(x).drop_last() =~= lines);
    assert(lines.push(x).last() == x);
}

proof fn lemma_ci_matches_in_push(lines: Seq<Seq<char>>, query: Seq<char>, x: Seq<char>)
    ensures
        ci_matches_in(lines.push(x), query) == (if ci_line_matches(x, query) {
            ci_matches_in(lines, query).push(x)
        } else {
            ci_matches_in(lines, query)
        }),
{
    reveal(Seq::filter);
    assert(lines.push(x).drop_last() =~= lines);
    assert(lines.push(x).last() == x);
}

proof fn lemma_matches_in_all(lines: Seq<Seq<char>>, query: Seq<char>)
    requires
        forall|k: int| 0 <= k < lines.len() ==> line_matches(#[trigger] lines[k], query),
    ensures
        matches_in(lines, query) == lines,
    decreases lines.len(),
{
    reveal(Seq::filter);
    if lines.len() == 0 {
        assert(matches_in(lines, query) =~= lines);
    } else {
        let head = lines.drop_last();
        assert forall|k: int| 0 <= k < head.len() implies line_matches(
            #[trigger] head[k],
            query,
        ) by {
            assert(head[k] == lines[k]);
        }
        lemma_matches_in_all(head, query);
        assert(lines[lines.len() - 1] == lines.last());
        assert(matches_in(lines, query) =~= lines);
    }
}

proof fn lemma_ci_matches_in_all(lines: Seq<Seq<char>>, query: Seq<char>)
    requires
        forall|k: int| 0 <= k < lines.len() ==> ci_line_matches(#[trigger] lines[k], query),
    ensures
        ci_matches_in(lines, query) == lines,
    decreases lines.len(),
{
    reveal(Seq::filter);
    if lines.len() == 0 {
        assert(ci_matches_in(lines, query) =~= lines);
    } else {
        let head = lines.drop_last();
        assert forall|k: int| 0 <= k < head.len() implies ci_line_matches(
            #[trigger] head[k],
            query,
        ) by {
            assert(head[k] == lines[k]);
        }
        lemma_ci_matches_in_all(head, query);
        assert(lines[lines.len() - 1] == lines.last());
        assert(ci_matches_in(lines, query) =~= lines);
    }
}

proof fn lemma_push_contains(lines: Seq<Seq<char>>, x: Seq<char>, y: Seq<char>)
    ensures
        lines.push(x).contains(y) <==> (lines.contains(y) || y == x),
{
    if lines.push(x).contains(y) {
        let w = choose|w: int| 0 <= w < lines.push(x).len() && lines.push(x)[w] == y;
        if w < lines.len() {
            assert(lines[w] == y);
        }
    }
    if lines.contains(y) {
        let w = choose|w: int| 0 <= w < lines.len() && lines[w] == y;
        assert(lines.push(x)[w] == y);
    }
    assert(lines.push(x)[lines.len() as int] == x);
}

proof fn lemma_matches_in_contains(lines: Seq<Seq<char>>, query: Seq<char>)
    ensures
        forall|line: Seq<char>|
            #[trigger] matches_in(lines, query).contains(line) <==> (lines.contains(line)
                && line_matches(line, query)),
    decreases lines.len(),
{
    reveal(Seq::filter);
    if lines.len() > 0 {
        let head = lines.drop_last();
        let x = lines.last();
        lemma_matches_in_contains(head, query);
        assert(head.push(x) =~= lines);
        assert forall|line: Seq<char>|
            #[trigger] matches_in(lines, query).contains(line) <==> (lines.contains(line)
                && line_matches(line, query)) by {
            lemma_push_contains(head, x, line);
            if line_matches(x, query) {
                assert(matches_in(lines, query) == matches_in(head, query).push(x));
                lemma_push_contains(matches_in(head, query), x, line);
            } else {
                assert(matches_in(lines, query) == matches_in(head, query));
            }
        }
    }
}

proof fn lemma_ci_matches_in_contains(lines: Seq<Seq<char>>, query: Seq<char>)
    ensures
        forall|line: Seq<char>|
            #[trigger] ci_matches_in(lines, query).contains(line) <==> (lines.contains(line)
                && ci_line_matches(line, query)),
    decreases lines.len(),
{
    reveal(Seq::filter);
    if lines.len() > 0 {
        let head = lines.drop_last();
        let x = lines.last();
        lemma_ci_matches_in_contains(head, query);
        assert(head.push(x) =~= lines);
        assert forall|line: Seq<char>|
            #[trigger] ci_matches_in(lines, query).contains(line) <==> (lines.contains(line)
                && ci_line_matches(line, query)) by {
            lemma_push_contains(head, x, line);
            if ci_line_matches(x, query) {
                assert(ci_matches_in(lines, query) == ci_matches_in(head, query).push(x));
                lemma_push_contains(ci_matches_in(head, query), x, line);
            } else {
                assert(ci_matches_in(lines, query) == ci_matches_in(head, query));
            }
        }
    }
}

/// Law: the case-sensitive result holds a line exactly when that line is a
/// line of the text and contains the query — no line that does not satisfy
/// containment appears, and no matching line is omitted. Their order is
/// fixed by the result being the filtered line sequence itself.
pub proof fn lemma_search_exact(query: Seq<char>, contents: Seq<char>)
    ensures
        forall|line: Seq<char>|
            #[trigger] matching_lines(query, contents).contains(line) <==> (lines_of(
                contents,
            ).contains(line) && line_matches(line, query)),
{
    lemma_matches_in_contains(lines_of(contents), query);
}

/// Law: the case-insensitive result holds a line exactly when that line is a
/// line of the text and its lowercased form contains the lowercased query.
pub proof fn lemma_ci_search_exact(query: Seq<char>, contents: Seq<char>)
    ensures
        forall|line: Seq<char>|
            #[trigger] ci_matching_lines(query, contents).contains(line) <==> (lines_of(
                contents,
            ).contains(line) && ci_line_matches(line, query)),
{
    lemma_ci_matches_in_contains(lines_of(contents), query);
}

/// Law: an empty query matches every line, so the case-sensitive result is
/// the whole line sequence.
pub proof fn lemma_empty_query_matches_all(contents: Seq<char>)
    ensures
        matching_lines(Seq::<char>::empty(), contents) == lines_of(contents),
{
    let lines = lines_of(contents);
    assert forall|k: int| 0 <= k < lines.len() implies line_matches(
        #[trigger] lines[k],
        Seq::<char>::empty(),
    ) by {
        lemma_contains_empty(lines[k]);
    }
    lemma_matches_in_all(lines, Seq::<char>::empty());
}

/// Law: when no line of the text contains the query, the case-sensitive
/// result is the empty sequence — never an error.
pub proof fn lemma_no_match_empty(query: Seq<char>, contents: Seq<char>)
    requires
        forall|k: int|
            0 <= k < lines_of(contents).len() ==> !line_matches(
                #[trigger] lines_of(contents)[k],
                query,
            ),
    ensures
        matching_lines(query, contents) == Seq::<Seq<char>>::empty(),
{
    lemma_matches_in_none(lines_of(contents), query);
}

proof fn lemma_matches_in_none(lines: Seq<Seq<char>>, query: Seq<char>)
    requires
        forall|k: int| 0 <= k < lines.len() ==> !line_matches(#[trigger] lines[k], query),
    ensures
        matches_in(lines, query) == Seq::<Seq<char>>::empty(),
    decreases lines.len(),
{
    reveal(Seq::filter);
    if lines.len() == 0 {
        assert(matches_in(lines, query) =~= Seq::<Seq<char>>::empty());
    } else {
        let head = lines.drop_last();
        assert forall|k: int| 0 <= k < head.len() implies !line_matches(
            #[trigger] head[k],
            query,
        ) by {
            assert(head[k] == lines[k]);
        }
        lemma_matches_in_none(head, query);
        assert(lines[lines.len() - 1] == lines.last());
    }
}

proof fn lemma_ci_matches_in_none(lines: Seq<Seq<char>>, query: Seq<char>)
    requires
        forall|k: int| 0 <= k < lines.len() ==> !ci_line_matches(#[trigger] lines[k], query),
    ensures
        ci_matches_in(lines, query) == Seq::<Seq<char>>::empty(),
    decreases lines.len(),
{
    reveal(Seq::filter);
    if lines.len() == 0 {
        assert(ci_matches_in(lines, query) =~= Seq::<Seq<char>>::empty());
    } else {
        let head = lines.drop_last();
        assert forall|k: int| 0 <= k < head.len() implies !ci_line_matches(
            #[trigger] head[k],
            query,
        ) by {
            assert(head[k] == lines[k]);
        }
        lemma_ci_matches_in_none(head, query);
        assert(lines[lines.len() - 1] == lines.last());
    }
}

/// Law: when no line of the text matches the query case-insensitively, the
/// case-insensitive result is the empty sequence — never an error.
pub proof fn lemma_ci_no_match_empty(query: Seq<char>, contents: Seq<char>)
    requires
        forall|k: int|
            0 <= k < lines_of(contents).len() ==> !ci_line_matches(
                #[trigger] lines_of(contents)[k],
                query,
            ),
    ensures
        ci_matching_lines(query, contents) == Seq::<Seq<char>>::empty(),
{
    lemma_ci_matches_in_none(lines_of(contents), query);
}

/// Lowercasing distributes across every occurrence of `query` in `line`:
/// wherever the query occurs, lowercasing the line equals lowercasing the
/// part before the occurrence, the query, and the part after, concatenated.
/// Unicode lowercasing maps most characters independently of their
/// neighbours, but not all of them — the Greek capital sigma lowercases by
/// its position in a word — so this does not hold of every line and query.
pub open spec fn lower_splits_occurrences(line: Seq<char>, query: Seq<char>) -> bool {
    forall|i: int|
        #[trigger] occurs_at(line, query, i) ==> lower_of(line) == lower_of(line.subrange(0, i))
            + lower_of(query) + lower_of(line.subrange(i + query.len(), line.len() as int))
}

/// Law: every line of the case-sensitive result is in the case-insensitive
/// result, for any text whose lines lowercasing treats pointwise around the
/// query — see [`lower_splits_occurrences`] for the lines it excludes.
pub proof fn lemma_ci_search_superset(query: Seq<char>, contents: Seq<char>)
    requires
        forall|k: int|
            0 <= k < lines_of(contents).len() ==> lower_splits_occurrences(
                #[trigger] lines_of(contents)[k],
                query,
            ),
    ensures
        forall|line: Seq<char>|
            #[trigger] matching_lines(query, contents).contains(line) ==> ci_matching_lines(
                query,
                contents,
            ).contains(line),
{
    let lines = lines_of(contents);
    lemma_matches_in_contains(lines, query);
    lemma_ci_matches_in_contains(lines, query);
    assert forall|line: Seq<char>|
        #[trigger] matching_lines(query, contents).contains(line) implies ci_matching_lines(
        query,
        contents,
    ).contains(line) by {
        assert(lines.contains(line) && line_matches(line, query));
        let k = choose|k: int| 0 <= k < lines.len() && lines[k] == line;
        assert(lower_splits_occurrences(lines[k], query));
        let i = choose|i: int| occurs_at(line, query, i);
        assert(occurs_at(line, query, i));
        let before = lower_of(line.subrange(0, i));
        let mid = lower_of(query);
        let after = lower_of(line.subrange(i + query.len(), line.len() as int));
        assert(lower_of(line) == before + mid + after);
        assert(lower_of(line).subrange(
            before.len() as int,
            before.len() + mid.len() as int,
        ) =~= mid);
        assert(occurs_at(lower_of(line), lower_of(query), before.len() as int));
        assert(ci_line_matches(line, query));
    }
}

/// Case-sensitive search: the lines of `contents` that contain `query` as a
/// contiguous substring, in source order, with no reordering and no
/// duplication beyond the text's own. An empty query matches every line;
/// when nothing matches the result is empty, never an error.
pub fn search(query: &str, contents: &str) -> (r: Vec<String>)
    ensures
        r.deep_view() == matching_lines(query@, contents@),
        query@.len() == 0 ==> r.deep_view() == lines_of(contents@),
{
    let lines = split_lines(contents);
    let ghost all = lines_of(contents@);
    let mut result: Vec<String> = Vec::new();
    let mut k: usize = 0;
    while k < lines.len()
        invariant
            lines.deep_view() == all,
            all == lines_of(contents@),
            k <= lines@.len(),
            result.deep_view() == matches_in(all.subrange(0, k as int), query@),
        decreases lines@.len() - k,
    {
        let ghost prev = result.deep_view();
        proof {
            assert(lines.deep_view()[k as int] == lines@[k as int]@);
        }
        if contains(lines[k].as_str(), query) {
            result.push(lines[k].clone());
            proof {
                assert(result.deep_view() =~= prev.push(all[k as int]));
            }
        }
        proof {
            lemma_matches_in_push(all.subrange(0, k as int), query@, all[k as int]);
            assert(all.subrange(0, k as int).push(all[k as int]) =~= all.subrange(0, k + 1));
        }
        k += 1;
    }
    proof {
        assert(all.subrange(0, all.len() as int) =~= all);
        if query@.len() == 0 {
            assert(query@ =~= Seq::<char>::empty());
            lemma_empty_query_matches_all(contents@);
        }
    }
    result
}

/// Case-insensitive search: the lines of `contents` whose lowercased form
/// contains the lowercased `query`, in source order. The returned lines are
/// the original lines, not the lowercased ones. An empty query matches every
/// line; when nothing matches the result is empty, never an error.
pub fn search_case_insensitive(query: &str, contents: &str) -> (r: Vec<String>)
    ensures
        r.deep_view() == ci_matching_lines(query@, contents@),
        query@.len() == 0 ==> r.deep_view() == lines_of(contents@),
{
    let lowered_query = lowercase(query);
    let lines = split_lines(contents);
    let ghost all = lines_of(contents@);
    let mut result: Vec<String> = Vec::new();
    let mut k: usize = 0;
    while k < lines.len()
        invariant
            lines.deep_view() == all,
            all == lines_of(contents@),
            k <= lines@.len(),
            lowered_query@ == lower_of(query@),
            result.deep_view() == ci_matches_in(all.subrange(0, k as int), query@),
        decreases lines@.len() - k,
    {
        let ghost prev = result.deep_view();
        proof {
            assert(lines.deep_view()[k as int] == lines@[k as int]@);
        }
        let lowered_line = lowercase(lines[k].as_str());
        if contains(lowered_line.as_str(), lowered_query.as_str()) {
            result.push(lines[k].clone());
            proof {
                assert(result.deep_view() =~= prev.push(all[k as int]));
            }
        }
        proof {
            lemma_ci_matches_in_push(all.subrange(0, k as int), query@, all[k as int]);
            assert(all.subrange(0, k as int).push(all[k as int]) =~= all.subrange(0, k + 1));
        }
        k += 1;
    }
    proof {
        assert(all.subrange(0, all.len() as int) =~= all);
        if query@.len() == 0 {
            assert(lower_of(query@) =~= Seq::<char>::empty());
            assert forall|k2: int| 0 <= k2 < all.len() implies ci_line_matches(
                #[trigger] all[k2],
                query@,
            ) by {
                lemma_contains_empty(lower_of(all[k2]));
            }
            lemma_ci_matches_in_all(all, query@);
        }
    }
    result
}

/// Search with the mode a configuration calls for: case-insensitively when
/// it says to ignore case, case-sensitively otherwise.
pub fn search_with(config: &Config, contents: &str) -> (r: Vec<String>)
    ensures
        config.ignore_case ==> r.deep_view() == ci_matching_lines(config.query@, contents@),
        !config.ignore_case ==> r.deep_view() == matching_lines(config.query@, contents@),
{
    if config.ignore_case {
        search_case_insensitive(config.query.as_str(), contents)
    } else {
        search(config.query.as_str(), contents)
    }
}

} // verus!
