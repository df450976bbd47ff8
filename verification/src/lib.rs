//! Search a text for the lines that hold a query, with letter case respected
//! or ignored.
use vstd::prelude::*;

pub mod config;
pub mod encoding;
pub mod folding;
pub mod lines;
pub mod matching;
pub mod report;
pub mod text;

pub use crate::config::{ComparisonMode, Config};
use crate::folding::{lowercase, to_lowercase};
use crate::lines::{lines, lines_of};
use crate::matching::{
    lemma_all_lines_found,
    lemma_empty_query_finds_every_line,
    lemma_filter_next,
    line_matches,
    lines_found,
    matching_lines,
    matching_lines_folded,
    test_of,
};
use crate::report::{each_on_its_line, report, CONTENTS_HEADER, RESULTS_HEADER};
use crate::text::{contains, occurs_at};
use vstd::string::StringExecFns;

verus! {

/// The lines of `contents` that hold `query`, letter for letter, in their
/// order in `contents`. Each is a part of `contents` itself.
pub fn search<'a>(query: &str, contents: &'a str) -> (found: Vec<&'a str>)
    ensures
        found.deep_view() == matching_lines(query@, contents@),
        query@.len() == 0 ==> found.deep_view() == lines_of(contents@),
{
    proof {
        if query@.len() == 0 {
            assert(query@ =~= Seq::<char>::empty());
            lemma_empty_query_finds_every_line(contents@);
        }
    }
    let ghost keep = test_of(ComparisonMode::CaseSensitive, query@);
    let all = lines(contents);
    let mut found: Vec<&'a str> = Vec::new();
    let mut i: usize = 0;
    assert(found.deep_view() =~= all.deep_view().take(0).filter(keep)) by {
        reveal(Seq::filter);
    }
    while i < all.len()
        invariant
            i <= all.len(),
            keep == test_of(ComparisonMode::CaseSensitive, query@),
            found.deep_view() == all.deep_view().take(i as int).filter(keep),
        decreases all.len() - i,
    {
        let ghost before = found.deep_view();
        let line = all[i];
        proof {
            lemma_filter_next(all.deep_view(), keep, i as int);
        }
        if contains(line, query) {
            found.push(line);
            assert(found.deep_view() =~= before.push(line@));
        }
        i += 1;
    }
    assert(all.deep_view().take(i as int) =~= all.deep_view());
    found
}

/// The lines of `contents` whose lowercase form holds the lowercase form of
/// `query`, in their order in `contents`. Each is a part of `contents` itself,
/// in its own letter case.
pub fn search_case_insensitive<'a>(query: &str, contents: &'a str) -> (found: Vec<&'a str>)
    ensures
        found.deep_view() == matching_lines_folded(query@, contents@),
        query@.len() == 0 ==> found.deep_view() == lines_of(contents@),
{
    let ghost keep = test_of(ComparisonMode::CaseInsensitive, query@);
    let folded_query = to_lowercase(query);
    let all = lines(contents);
    let mut found: Vec<&'a str> = Vec::new();
    let mut i: usize = 0;
    assert(found.deep_view() =~= all.deep_view().take(0).filter(keep)) by {
        reveal(Seq::filter);
    }
    while i < all.len()
        invariant
            i <= all.len(),
            keep == test_of(ComparisonMode::CaseInsensitive, query@),
            folded_query@ == lowercase(query@),
            found.deep_view() == all.deep_view().take(i as int).filter(keep),
        decreases all.len() - i,
    {
        let ghost before = found.deep_view();
        let line = all[i];
        proof {
            lemma_filter_next(all.deep_view(), keep, i as int);
        }
        let folded_line = to_lowercase(line);
        if contains(folded_line.as_str(), folded_query.as_str()) {
            found.push(line);
            assert(found.deep_view() =~= before.push(line@));
        }
        i += 1;
    }
    proof {
        assert(all.deep_view().take(i as int) =~= all.deep_view());
        if query@.len() == 0 {
            let every = lines_of(contents@);
            assert forall|k: int| 0 <= k < every.len() implies line_matches(
                ComparisonMode::CaseInsensitive,
                query@,
                #[trigger] every[k],
            ) by {
                let hay = lowercase(every[k]);
                assert(hay.subrange(0, 0) =~= folded_query@);
                assert(occurs_at(hay, folded_query@, 0));
            }
            lemma_all_lines_found(ComparisonMode::CaseInsensitive, query@, contents@);
        }
    }
    found
}

/// The lines of `contents` that hold `query` under the given comparison mode,
/// in their order in `contents`.
pub fn search_with<'a>(mode: ComparisonMode, query: &str, contents: &'a str) -> (found: Vec<
    &'a str,
>)
    ensures
        found.deep_view() == lines_found(mode, query@, contents@),
        query@.len() == 0 ==> found.deep_view() == lines_of(contents@),
{
    match mode {
        ComparisonMode::CaseSensitive => search(query, contents),
        ComparisonMode::CaseInsensitive => search_case_insensitive(query, contents),
    }
}

/// Searches `contents`, the text of the file that `config` names, as `config`
/// asks, and returns what is to be printed: the contents, then the lines
/// found.
pub fn run(config: &Config, contents: &str) -> (output: String)
    ensures
        output@ == report(contents@, lines_found(config.mode(), config.query@, contents@)),
{
    let found = search_with(config.mode(), config.query.as_str(), contents);
    let mut output = String::from_str(CONTENTS_HEADER);
    proof {
        reveal_strlit("\n");
        assert("\n"@ =~= seq!['\n']);
    }
    output.append("\n");
    output.append(contents);
    output.append("\n");
    output.append(RESULTS_HEADER);
    output.append("\n");
    let ghost head = output@;
    let mut i: usize = 0;
    assert(found.deep_view().take(0) =~= Seq::<Seq<char>>::empty());
    assert(output@ =~= head + each_on_its_line(found.deep_view().take(0)));
    while i < found.len()
        invariant
            i <= found.len(),
            "\n"@ == seq!['\n'],
            output@ == head + each_on_its_line(found.deep_view().take(i as int)),
        decreases found.len() - i,
    {
        proof {
            let next = found.deep_view().take(i + 1);
            assert(next.drop_last() =~= found.deep_view().take(i as int));
            assert(next.last() == found[i as int]@);
        }
        output.append(found[i]);
        output.append("\n");
        i += 1;
        assert(output@ =~= head + each_on_its_line(found.deep_view().take(i as int)));
    }
    assert(found.deep_view().take(i as int) =~= found.deep_view());
    output
}

} // verus!
