//! Which lines of a document a search returns, and what holds of them.
use vstd::prelude::*;
use crate::config::ComparisonMode;
use crate::folding::lowercase;
use crate::lines::lines_of;
use crate::text::{is_substring, occurs_at};

verus! {

/// Whether `line` holds `query` under the given comparison mode: letter for
/// letter, or by the lowercase forms of both.
pub open spec fn line_matches(mode: ComparisonMode, query: Seq<char>, line: Seq<char>) -> bool {
    match mode {
        ComparisonMode::CaseSensitive => is_substring(line, query),
        ComparisonMode::CaseInsensitive => is_substring(lowercase(line), lowercase(query)),
    }
}

/// The test that a line holds `query` under the given comparison mode.
pub open spec fn test_of(mode: ComparisonMode, query: Seq<char>) -> spec_fn(Seq<char>) -> bool {
    |line: Seq<char>| line_matches(mode, query, line)
}

/// The lines of `contents` that hold `query` under the given comparison mode,
/// in their order in `contents` and as they stand there.
pub open spec fn lines_found(
    mode: ComparisonMode,
    query: Seq<char>,
    contents: Seq<char>,
) -> Seq<Seq<char>> {
    lines_of(contents).filter(test_of(mode, query))
}

/// The lines of `contents` that hold `query` letter for letter.
pub open spec fn matching_lines(query: Seq<char>, contents: Seq<char>) -> Seq<Seq<char>> {
    lines_found(ComparisonMode::CaseSensitive, query, contents)
}

/// The lines of `contents` whose lowercase form holds the lowercase form of
/// `query`.
pub open spec fn matching_lines_folded(query: Seq<char>, contents: Seq<char>) -> Seq<Seq<char>> {
    lines_found(ComparisonMode::CaseInsensitive, query, contents)
}

/// Whether `at` lists, in rising order, exactly the offsets in `all` of the
/// items that meet `keep`, and `kept` holds the items at those offsets.
pub open spec fn selects<A>(
    all: Seq<A>,
    keep: spec_fn(A) -> bool,
    kept: Seq<A>,
    at: Seq<int>,
) -> bool {
    &&& at.len() == kept.len()
    &&& forall|i: int|
        0 <= i < at.len() ==> 0 <= #[trigger] at[i] < all.len() && all[at[i]] == kept[i]
    &&& forall|i: int, j: int| 0 <= i < j < at.len() ==> at[i] < at[j]
    &&& forall|k: int| 0 <= k < all.len() ==> (keep(all[k]) <==> #[trigger] at.contains(k))
}

/// Filtering keeps exactly the items that meet the test, each once for each
/// time it stands in the sequence, and in the order in which they stand there.
pub proof fn lemma_filter_selects<A>(all: Seq<A>, keep: spec_fn(A) -> bool) -> (at: Seq<int>)
    ensures
        selects(all, keep, all.filter(keep), at),
    decreases all.len(),
{
    reveal(Seq::filter);
    if all.len() == 0 {
        Seq::empty()
    } else {
        let front = all.drop_last();
        let sub = lemma_filter_selects(front, keep);
        let last = all.len() - 1;
        if keep(all.last()) {
            let at = sub.push(last);
            assert forall|k: int| 0 <= k < all.len() implies (keep(all[k]) <==> #[trigger] at.contains(
                k,
            )) by {
                if k < last {
                    assert(front[k] == all[k]);
                    if sub.contains(k) {
                        let i = choose|i: int| 0 <= i < sub.len() && sub[i] == k;
                        assert(at[i] == k);
                    }
                    if at.contains(k) {
                        let i = choose|i: int| 0 <= i < at.len() && at[i] == k;
                        assert(sub[i] == k);
                    }
                } else {
                    assert(at[at.len() - 1] == k);
                }
            }
            at
        } else {
            assert forall|k: int| 0 <= k < all.len() implies (keep(all[k]) <==> #[trigger] sub.contains(
                k,
            )) by {
                if k < last {
                    assert(front[k] == all[k]);
                }
            }
            sub
        }
    }
}

/// Filtering one item more: the item is added at the end if it meets the test.
pub proof fn lemma_filter_next<A>(all: Seq<A>, keep: spec_fn(A) -> bool, i: int)
    requires
        0 <= i < all.len(),
    ensures
        keep(all[i]) ==> all.take(i + 1).filter(keep) == all.take(i).filter(keep).push(all[i]),
        !keep(all[i]) ==> all.take(i + 1).filter(keep) == all.take(i).filter(keep),
{
    reveal(Seq::filter);
    assert(all.take(i + 1).drop_last() =~= all.take(i));
}

/// Filtering by a test that every item meets changes nothing.
pub proof fn lemma_filter_all<A>(all: Seq<A>, keep: spec_fn(A) -> bool)
    requires
        forall|k: int| 0 <= k < all.len() ==> keep(#[trigger] all[k]),
    ensures
        all.filter(keep) == all,
    decreases all.len(),
{
    reveal(Seq::filter);
    if all.len() > 0 {
        let front = all.drop_last();
        assert forall|k: int| 0 <= k < front.len() implies keep(#[trigger] front[k]) by {
            assert(front[k] == all[k]);
        }
        lemma_filter_all(front, keep);
        assert(front.push(all.last()) =~= all);
    }
}

/// The lines that a search returns are the lines of the document at rising
/// offsets: one for each line that matches, so they stand in the order of the
/// document, and a line that matches twice over is still there once.
pub proof fn lemma_found_lines_in_order(
    mode: ComparisonMode,
    query: Seq<char>,
    contents: Seq<char>,
) -> (at: Seq<int>)
    ensures
        at.len() == lines_found(mode, query, contents).len(),
        forall|i: int|
            0 <= i < at.len() ==> 0 <= #[trigger] at[i] < lines_of(contents).len() && lines_of(
                contents,
            )[at[i]] == lines_found(mode, query, contents)[i],
        forall|i: int, j: int| 0 <= i < j < at.len() ==> at[i] < at[j],
        forall|k: int|
            0 <= k < lines_of(contents).len() ==> (line_matches(mode, query, lines_of(contents)[k])
                <==> #[trigger] at.contains(k)),
{
    lemma_filter_selects(lines_of(contents), test_of(mode, query))
}

/// Every line that a search returns is a line of the document and matches the
/// query; a line of the document that is not among them does not match it.
pub proof fn lemma_found_lines_match(mode: ComparisonMode, query: Seq<char>, contents: Seq<char>)
    ensures
        forall|i: int|
            0 <= i < lines_found(mode, query, contents).len() ==> lines_of(contents).contains(
                #[trigger] lines_found(mode, query, contents)[i],
            ) && line_matches(mode, query, lines_found(mode, query, contents)[i]),
        forall|k: int|
            0 <= k < lines_of(contents).len() && !lines_found(mode, query, contents).contains(
                #[trigger] lines_of(contents)[k],
            ) ==> !line_matches(mode, query, lines_of(contents)[k]),
{
    let all = lines_of(contents);
    let found = lines_found(mode, query, contents);
    let at = lemma_found_lines_in_order(mode, query, contents);
    assert forall|i: int| 0 <= i < found.len() implies all.contains(#[trigger] found[i])
        && line_matches(mode, query, found[i]) by {
        assert(at.contains(at[i]));
    }
    assert forall|k: int| 0 <= k < all.len() && !found.contains(#[trigger] all[k]) implies !line_matches(
        mode,
        query,
        all[k],
    ) by {
        if line_matches(mode, query, all[k]) {
            assert(at.contains(k));
            let i = choose|i: int| 0 <= i < at.len() && at[i] == k;
            assert(found[i] == all[k]);
        }
    }
}

/// A search with letter case respected returns lines of the document, each of
/// which holds the query letter for letter; a line of the document that is
/// not among them does not hold the query.
pub proof fn lemma_found_lines_hold_query(query: Seq<char>, contents: Seq<char>)
    ensures
        forall|i: int|
            0 <= i < matching_lines(query, contents).len() ==> lines_of(contents).contains(
                #[trigger] matching_lines(query, contents)[i],
            ) && is_substring(matching_lines(query, contents)[i], query),
        forall|k: int|
            0 <= k < lines_of(contents).len() && !matching_lines(query, contents).contains(
                #[trigger] lines_of(contents)[k],
            ) ==> !is_substring(lines_of(contents)[k], query),
{
    lemma_found_lines_match(ComparisonMode::CaseSensitive, query, contents);
}

/// A search without letter case returns lines of the document as they stand
/// there, and the lowercase form of each holds the lowercase form of the
/// query; the lowercase form of a line of the document that is not among them
/// does not hold it.
pub proof fn lemma_found_lines_hold_query_folded(query: Seq<char>, contents: Seq<char>)
    ensures
        forall|i: int|
            0 <= i < matching_lines_folded(query, contents).len() ==> lines_of(contents).contains(
                #[trigger] matching_lines_folded(query, contents)[i],
            ) && is_substring(
                lowercase(matching_lines_folded(query, contents)[i]),
                lowercase(query),
            ),
        forall|k: int|
            0 <= k < lines_of(contents).len() && !matching_lines_folded(query, contents).contains(
                #[trigger] lines_of(contents)[k],
            ) ==> !is_substring(lowercase(lines_of(contents)[k]), lowercase(query)),
{
    lemma_found_lines_match(ComparisonMode::CaseInsensitive, query, contents);
}

/// A search for a query that every line matches returns every line of the
/// document, in order.
pub proof fn lemma_all_lines_found(mode: ComparisonMode, query: Seq<char>, contents: Seq<char>)
    requires
        forall|k: int|
            0 <= k < lines_of(contents).len() ==> line_matches(
                mode,
                query,
                #[trigger] lines_of(contents)[k],
            ),
    ensures
        lines_found(mode, query, contents) == lines_of(contents),
{
    lemma_filter_all(lines_of(contents), test_of(mode, query));
}

/// A search for the empty query with letter case respected returns every line
/// of the document, in order.
pub proof fn lemma_empty_query_finds_every_line(contents: Seq<char>)
    ensures
        matching_lines(Seq::empty(), contents) == lines_of(contents),
{
    let all = lines_of(contents);
    let query = Seq::<char>::empty();
    assert forall|k: int| 0 <= k < all.len() implies line_matches(
        ComparisonMode::CaseSensitive,
        query,
        #[trigger] all[k],
    ) by {
        assert(all[k].subrange(0, 0) =~= query);
        assert(occurs_at(all[k], query, 0));
    }
    lemma_all_lines_found(ComparisonMode::CaseSensitive, query, contents);
}

/// Two searches of one document for one query in one mode return the same
/// lines: what a search returns depends on nothing else.
pub proof fn lemma_search_again(
    mode: ComparisonMode,
    query: &str,
    contents: &str,
    first: Vec<&str>,
    second: Vec<&str>,
)
    requires
        first.deep_view() == lines_found(mode, query@, contents@),
        second.deep_view() == lines_found(mode, query@, contents@),
    ensures
        first.deep_view() == second.deep_view(),
{
}

} // verus!
