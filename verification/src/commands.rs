//! The decisions of a check run: which comment texts to send to
//! LanguageTool, which answers come from the cache, and how the answers map
//! back onto the comments of the file.

use std::collections::HashMap;
use std::collections::HashSet;

use vstd::prelude::*;

use crate::lt::{duplicate_matches, Match, MoreContext, QueryRequest, QueryResult};
use crate::parse::CodeComment;

verus! {

broadcast use vstd::std_specs::hash::group_hash_axioms;

/// The text of each checksum among `comments`: where several comments share
/// a checksum, the text of the last of them.
pub open spec fn checksum_texts(comments: Seq<CodeComment>) -> Map<u64, String>
    decreases comments.len(),
{
    if comments.len() == 0 {
        Map::empty()
    } else {
        checksum_texts(comments.drop_last()).insert(
            comments.last().text_checksum,
            comments.last().text,
        )
    }
}

/// The checksums of the first `n` comments.
pub open spec fn checksums_upto(comments: Seq<CodeComment>, n: int) -> Set<u64> {
    Set::new(|k: u64| exists|j: int| 0 <= j < n && #[trigger] comments[j].text_checksum == k)
}

/// The checksums that `checksum_texts` has are those of the comments.
pub proof fn lemma_checksum_texts_dom(comments: Seq<CodeComment>)
    ensures
        checksum_texts(comments).dom() == checksums_upto(comments, comments.len() as int),
    decreases comments.len(),
{
    if comments.len() > 0 {
        let prefix = comments.drop_last();
        lemma_checksum_texts_dom(prefix);
        assert forall|k: u64| #[trigger]
            checksums_upto(comments, comments.len() as int).contains(k) <==> checksum_texts(
                comments,
            ).dom().contains(k) by {
            if checksums_upto(comments, comments.len() as int).contains(k) {
                let j = choose|j: int|
                    0 <= j < comments.len() && #[trigger] comments[j].text_checksum == k;
                if j < comments.len() - 1 {
                    assert(prefix[j].text_checksum == k);
                    assert(checksums_upto(prefix, prefix.len() as int).contains(k));
                }
            }
            if checksum_texts(comments).dom().contains(k) && k != comments.last().text_checksum {
                assert(checksums_upto(prefix, prefix.len() as int).contains(k));
                let j = choose|j: int|
                    0 <= j < prefix.len() && #[trigger] prefix[j].text_checksum == k;
                assert(comments[j].text_checksum == k);
            }
        }
        assert(checksum_texts(comments).dom() =~= checksums_upto(
            comments,
            comments.len() as int,
        ));
    } else {
        assert(checksum_texts(comments).dom() =~= checksums_upto(
            comments,
            comments.len() as int,
        ));
    }
}

/// Maps each checksum of the comments to its text (the last text where
/// several comments share a checksum).
pub fn comments_checksum_map(code_comments: &Vec<CodeComment>) -> (m: HashMap<u64, String>)
    ensures
        m@ == checksum_texts(code_comments@),
{
    let mut m: HashMap<u64, String> = HashMap::new();
    let mut i: usize = 0;
    while i < code_comments.len()
        invariant
            i <= code_comments@.len(),
            m@ == checksum_texts(code_comments@.take(i as int)),
        decreases code_comments@.len() - i,
    {
        proof {
            assert(code_comments@.take(i + 1).drop_last() =~= code_comments@.take(i as int));
        }
        m.insert(code_comments[i].text_checksum, code_comments[i].text.clone());
        i = i + 1;
    }
    proof {
        assert(code_comments@.take(i as int) =~= code_comments@);
    }
    m
}

/// `requests` are the queries a check must send: one for each checksum of
/// the comments that the cache lacks, and no other, each with the text of
/// that checksum and the language asked for.
pub open spec fn requests_planned(
    requests: Seq<QueryRequest>,
    comments: Seq<CodeComment>,
    cached: Map<u64, Vec<Match>>,
    language: Seq<char>,
) -> bool {
    let texts = checksum_texts(comments);
    &&& forall|i: int|
        0 <= i < requests.len() ==> {
            let k = #[trigger] requests[i].text_checksum;
            &&& texts.contains_key(k)
            &&& !cached.contains_key(k)
            &&& requests[i].text == texts[k]
            &&& requests[i].language@ == language
        }
    &&& forall|i: int, j: int|
        0 <= i < j < requests.len() ==> requests[i].text_checksum != requests[j].text_checksum
    &&& forall|k: u64|
        texts.contains_key(k) && !cached.contains_key(k) ==> exists|i: int|
            0 <= i < requests.len() && #[trigger] requests[i].text_checksum == k
}

/// The answers of a map from checksums to match lists, as sequences.
pub open spec fn answers_view(map: Map<u64, Vec<Match>>) -> Map<u64, Seq<Match>> {
    map.map_values(|v: Vec<Match>| v@)
}

/// Law: a file whose every comment has a cached answer needs no query; a
/// second check of an unchanged file is served from the cache that the
/// first one saved (see `law_answers_cover_comments`).
pub proof fn law_cached_file_sends_no_query(
    comments: Seq<CodeComment>,
    cached: Map<u64, Vec<Match>>,
    language: Seq<char>,
    requests: Seq<QueryRequest>,
)
    requires
        requests_planned(requests, comments, cached, language),
        forall|i: int| 0 <= i < comments.len() ==> cached.contains_key(#[trigger] comments[i].text_checksum),
    ensures
        requests.len() == 0,
{
    lemma_checksum_texts_dom(comments);
    if requests.len() > 0 {
        let k = requests[0].text_checksum;
        assert(checksum_texts(comments).contains_key(k));
        assert(checksums_upto(comments, comments.len() as int).contains(k));
        let j = choose|j: int| 0 <= j < comments.len() && #[trigger] comments[j].text_checksum == k;
        assert(cached.contains_key(comments[j].text_checksum));
    }
}

/// The answers a check takes from the cache: the cached entries of the
/// checksums of the comments.
pub open spec fn cached_results(
    comments: Seq<CodeComment>,
    cached: Map<u64, Vec<Match>>,
) -> Map<u64, Seq<Match>> {
    answers_view(cached).restrict(checksum_texts(comments).dom())
}

/// What a check does before it asks LanguageTool: the answers it already
/// has, and the queries still to send.
pub struct QueryPlan {
    pub result_match_map: HashMap<u64, Vec<Match>>,
    pub query_requests: Vec<QueryRequest>,
}

/// Dedupes the comments by checksum, takes the answers for checksums in the
/// cache, and makes one query, in `language`, for each other checksum.
pub fn plan_queries(
    code_comments: &Vec<CodeComment>,
    cached_match_map: &HashMap<u64, Vec<Match>>,
    language: &str,
) -> (plan: QueryPlan)
    ensures
        answers_view(plan.result_match_map@) == cached_results(code_comments@, cached_match_map@),
        requests_planned(plan.query_requests@, code_comments@, cached_match_map@, language@),
{
    let texts = comments_checksum_map(code_comments);
    let ghost comments = code_comments@;
    let ghost cached = cached_match_map@;
    let ghost all = checksum_texts(comments);
    proof {
        lemma_checksum_texts_dom(comments);
    }
    let mut seen: HashSet<u64> = HashSet::new();
    let mut result_match_map: HashMap<u64, Vec<Match>> = HashMap::new();
    let mut query_requests: Vec<QueryRequest> = Vec::new();
    let mut i: usize = 0;
    proof {
        assert(seen@ =~= checksums_upto(comments, 0));
        assert(answers_view(result_match_map@) =~= answers_view(cached).restrict(seen@));
    }
    while i < code_comments.len()
        invariant
            comments == code_comments@,
            cached == cached_match_map@,
            texts@ == all,
            all == checksum_texts(comments),
            all.dom() == checksums_upto(comments, comments.len() as int),
            i <= comments.len(),
            seen@ == checksums_upto(comments, i as int),
            answers_view(result_match_map@) == answers_view(cached).restrict(seen@),
            forall|r: int|
                0 <= r < query_requests@.len() ==> {
                    let k = #[trigger] query_requests@[r].text_checksum;
                    &&& seen@.contains(k)
                    &&& all.contains_key(k)
                    &&& !cached.contains_key(k)
                    &&& query_requests@[r].text == all[k]
                    &&& query_requests@[r].language@ == language@
                },
            forall|r: int, s: int|
                0 <= r < s < query_requests@.len() ==> query_requests@[r].text_checksum
                    != query_requests@[s].text_checksum,
            forall|k: u64|
                seen@.contains(k) && !cached.contains_key(k) ==> exists|r: int|
                    0 <= r < query_requests@.len() && #[trigger] query_requests@[r].text_checksum
                        == k,
        decreases comments.len() - i,
    {
        let k = code_comments[i].text_checksum;
        proof {
            assert(comments[i as int].text_checksum == k);
            assert(all.dom().contains(k));
            assert forall|x: u64|
                checksums_upto(comments, i + 1).contains(x) <==> seen@.insert(k).contains(x) by {
                if checksums_upto(comments, i + 1).contains(x) && x != k {
                    let j = choose|j: int|
                        0 <= j < i + 1 && #[trigger] comments[j].text_checksum == x;
                    assert(j < i);
                    assert(checksums_upto(comments, i as int).contains(x));
                }
                if seen@.contains(x) {
                    let j = choose|j: int| 0 <= j < i && #[trigger] comments[j].text_checksum == x;
                    assert(checksums_upto(comments, i + 1).contains(x));
                }
            }
        }
        if !seen.contains(&k) {
            seen.insert(k);
            if cached_match_map.contains_key(&k) {
                let cached_matches = cached_match_map.get(&k).unwrap();
                let copied = duplicate_matches(cached_matches);
                assert(copied@ == answers_view(cached)[k]);
                let ghost old_results = answers_view(result_match_map@);
                result_match_map.insert(k, copied);
                proof {
                    assert(answers_view(result_match_map@) =~= old_results.insert(k, copied@));
                    assert(answers_view(result_match_map@) =~= answers_view(cached).restrict(seen@));
                }
            } else {
                let text = texts.get(&k).unwrap().clone();
                let ghost before = query_requests@;
                query_requests.push(
                    QueryRequest { language: language.to_owned(), text, text_checksum: k },
                );
                proof {
                    assert(answers_view(result_match_map@) =~= answers_view(cached).restrict(seen@));
                    assert forall|x: u64|
                        seen@.contains(x) && !cached.contains_key(x) implies exists|r: int|
                            0 <= r < query_requests@.len()
                                && #[trigger] query_requests@[r].text_checksum == x by {
                        if x == k {
                            assert(query_requests@[before.len() as int].text_checksum == x);
                        } else {
                            let r = choose|r: int|
                                0 <= r < before.len() && #[trigger] before[r].text_checksum == x;
                            assert(query_requests@[r].text_checksum == x);
                        }
                    }
                }
            }
        }
        proof {
            assert(seen@ =~= checksums_upto(comments, i + 1));
        }
        i = i + 1;
    }
    proof {
        assert(seen@ =~= all.dom());
    }
    QueryPlan { result_match_map, query_requests }
}

/// The answer map after recording `results` in order over `map`.
pub open spec fn with_results(
    map: Map<u64, Seq<Match>>,
    results: Seq<QueryResult>,
) -> Map<u64, Seq<Match>>
    decreases results.len(),
{
    if results.len() == 0 {
        map
    } else {
        with_results(map, results.drop_last()).insert(
            results.last().text_checksum,
            results.last().matches@,
        )
    }
}

/// Recording results adds exactly their checksums to the answered ones.
pub proof fn lemma_with_results_dom(map: Map<u64, Seq<Match>>, results: Seq<QueryResult>)
    ensures
        forall|k: u64|
            #[trigger] with_results(map, results).contains_key(k) <==> (map.contains_key(k)
                || exists|j: int| 0 <= j < results.len() && results[j].text_checksum == k),
    decreases results.len(),
{
    if results.len() > 0 {
        let prefix = results.drop_last();
        lemma_with_results_dom(map, prefix);
        assert forall|k: u64| #[trigger]
            with_results(map, results).contains_key(k) <==> (map.contains_key(k) || exists|j: int|
                0 <= j < results.len() && results[j].text_checksum == k) by {
            let before = with_results(map, prefix);
            assert(before.contains_key(k) <==> (map.contains_key(k) || exists|j: int|
                0 <= j < prefix.len() && prefix[j].text_checksum == k));
            assert(with_results(map, results) == before.insert(
                results.last().text_checksum,
                results.last().matches@,
            ));
            if k == results.last().text_checksum {
                assert(results[results.len() - 1].text_checksum == k);
            }
            if exists|j: int| 0 <= j < results.len() && results[j].text_checksum == k {
                let j = choose|j: int| 0 <= j < results.len() && results[j].text_checksum == k;
                if j < results.len() - 1 {
                    assert(prefix[j].text_checksum == k);
                }
            }
            if exists|j: int| 0 <= j < prefix.len() && prefix[j].text_checksum == k {
                let j = choose|j: int| 0 <= j < prefix.len() && prefix[j].text_checksum == k;
                assert(results[j].text_checksum == k);
            }
        }
    }
}

/// Law: once every planned query has a result, every comment has an
/// answer: the cached answers cover the cached checksums, and the results
/// cover the rest.
pub proof fn law_answers_cover_comments(
    comments: Seq<CodeComment>,
    cached: Map<u64, Vec<Match>>,
    language: Seq<char>,
    requests: Seq<QueryRequest>,
    results: Seq<QueryResult>,
)
    requires
        requests_planned(requests, comments, cached, language),
        forall|i: int|
            0 <= i < requests.len() ==> exists|j: int|
                0 <= j < results.len() && results[j].text_checksum == #[trigger] requests[i].text_checksum,
    ensures
        forall|i: int|
            0 <= i < comments.len() ==> with_results(cached_results(comments, cached), results).contains_key(
                #[trigger] comments[i].text_checksum,
            ),
{
    lemma_checksum_texts_dom(comments);
    lemma_with_results_dom(cached_results(comments, cached), results);
    let texts = checksum_texts(comments);
    assert forall|i: int| 0 <= i < comments.len() implies with_results(
        cached_results(comments, cached),
        results,
    ).contains_key(#[trigger] comments[i].text_checksum) by {
        let k = comments[i].text_checksum;
        assert(checksums_upto(comments, comments.len() as int).contains(k));
        assert(texts.contains_key(k));
        if !cached.contains_key(k) {
            let r = choose|r: int| 0 <= r < requests.len() && #[trigger] requests[r].text_checksum == k;
            assert(exists|j: int| 0 <= j < results.len() && results[j].text_checksum == requests[r].text_checksum);
        } else {
            assert(cached_results(comments, cached).contains_key(k));
        }
    }
}

/// Law: a second check of an unchanged file repeats the first. Where the
/// cache that the second check reads holds the answers the first one
/// recorded, and LanguageTool answered exactly the first check's queries,
/// the second check sends no query, takes exactly those answers (and so
/// saves them unchanged, with no offsets added), and returns the same
/// matches.
pub proof fn law_second_check_repeats_first(
    comments: Seq<CodeComment>,
    cached: Map<u64, Vec<Match>>,
    language: Seq<char>,
    requests: Seq<QueryRequest>,
    results: Seq<QueryResult>,
    cached_again: Map<u64, Vec<Match>>,
    requests_again: Seq<QueryRequest>,
)
    requires
        requests_planned(requests, comments, cached, language),
        forall|i: int|
            0 <= i < requests.len() ==> exists|j: int|
                0 <= j < results.len() && results[j].text_checksum == #[trigger] requests[i].text_checksum,
        forall|j: int|
            0 <= j < results.len() ==> exists|i: int|
                0 <= i < requests.len() && requests[i].text_checksum == #[trigger] results[j].text_checksum,
        answers_view(cached_again) == with_results(cached_results(comments, cached), results),
        requests_planned(requests_again, comments, cached_again, language),
    ensures
        requests_again.len() == 0,
        cached_results(comments, cached_again) == with_results(
            cached_results(comments, cached),
            results,
        ),
        spec_concat_matches(comments, cached_results(comments, cached_again))
            == spec_concat_matches(comments, with_results(cached_results(comments, cached), results)),
{
    let first = with_results(cached_results(comments, cached), results);
    let texts = checksum_texts(comments);
    lemma_with_results_dom(cached_results(comments, cached), results);
    law_answers_cover_comments(comments, cached, language, requests, results);
    assert forall|k: u64| first.contains_key(k) implies texts.contains_key(k) by {
        if !cached_results(comments, cached).contains_key(k) {
            let j = choose|j: int| 0 <= j < results.len() && results[j].text_checksum == k;
            assert(results[j].text_checksum == k);
            let i = choose|i: int|
                0 <= i < requests.len() && requests[i].text_checksum == results[j].text_checksum;
            assert(requests[i].text_checksum == k);
        }
    }
    assert(cached_results(comments, cached_again) =~= first);
    assert forall|i: int| 0 <= i < comments.len() implies cached_again.contains_key(
        #[trigger] comments[i].text_checksum,
    ) by {
        assert(first.contains_key(comments[i].text_checksum));
        assert(answers_view(cached_again).contains_key(comments[i].text_checksum));
    }
    law_cached_file_sends_no_query(comments, cached_again, language, requests_again);
}

/// Records the answers of LanguageTool: each result's matches become the
/// answer of its checksum.
pub fn record_results(
    result_match_map: &mut HashMap<u64, Vec<Match>>,
    query_results: &Vec<QueryResult>,
)
    ensures
        answers_view(final(result_match_map)@) == with_results(
            answers_view(old(result_match_map)@),
            query_results@,
        ),
{
    let ghost start = answers_view(result_match_map@);
    let mut i: usize = 0;
    while i < query_results.len()
        invariant
            i <= query_results@.len(),
            answers_view(result_match_map@) == with_results(start, query_results@.take(i as int)),
        decreases query_results@.len() - i,
    {
        proof {
            assert(query_results@.take(i + 1).drop_last() =~= query_results@.take(i as int));
        }
        let matches = duplicate_matches(&query_results[i].matches);
        result_match_map.insert(query_results[i].text_checksum, matches);
        proof {
            assert(answers_view(result_match_map@) =~= with_results(
                start,
                query_results@.take(i + 1),
            ));
        }
        i = i + 1;
    }
    proof {
        assert(query_results@.take(i as int) =~= query_results@);
    }
}

/// A match moved from the position in its comment to the position in the
/// file: its line shifted by the comment's row, its offset by the
/// comment's column.
pub open spec fn shifted(m: Match, comment: CodeComment) -> Match {
    let context = m.more_context.unwrap();
    Match {
        origin: m.origin,
        rule_id: m.rule_id,
        more_context: Some(
            MoreContext {
                line_number: (context.line_number + comment.start_row) as usize,
                line_offset: (context.line_offset + comment.start_column) as usize,
            },
        ),
    }
}

/// `shifted` is defined for the match: it has a position, and the shifted
/// position fits in `usize`.
pub open spec fn shiftable(m: Match, comment: CodeComment) -> bool {
    &&& m.more_context is Some
    &&& m.more_context.unwrap().line_number + comment.start_row <= usize::MAX
    &&& m.more_context.unwrap().line_offset + comment.start_column <= usize::MAX
}

/// Every comment has an answer, and each match of it can be shifted.
pub open spec fn answers_complete(
    comments: Seq<CodeComment>,
    results: Map<u64, Seq<Match>>,
) -> bool {
    forall|i: int|
        0 <= i < comments.len() ==> {
            let c = #[trigger] comments[i];
            &&& results.contains_key(c.text_checksum)
            &&& forall|j: int|
                0 <= j < results[c.text_checksum].len() ==> shiftable(
                    #[trigger] results[c.text_checksum][j],
                    c,
                )
        }
}

/// The matches of the file: for each comment in order, the matches of its
/// checksum, each shifted to the comment's place.
pub open spec fn spec_concat_matches(
    comments: Seq<CodeComment>,
    results: Map<u64, Seq<Match>>,
) -> Seq<Match>
    decreases comments.len(),
{
    if comments.len() == 0 {
        seq![]
    } else {
        let c = comments.last();
        spec_concat_matches(comments.drop_last(), results) + results[c.text_checksum].map_values(
            |m: Match| shifted(m, c),
        )
    }
}

/// Tells whether `concat_matches` may run (its `requires`).
pub fn answers_are_complete(
    code_comments: &Vec<CodeComment>,
    result_match_map: &HashMap<u64, Vec<Match>>,
) -> (r: bool)
    ensures
        r == answers_complete(code_comments@, answers_view(result_match_map@)),
{
    let ghost results = answers_view(result_match_map@);
    let mut i: usize = 0;
    while i < code_comments.len()
        invariant
            i <= code_comments@.len(),
            results == answers_view(result_match_map@),
            answers_complete(code_comments@.take(i as int), results),
        decreases code_comments@.len() - i,
    {
        let c = &code_comments[i];
        let k = c.text_checksum;
        if !result_match_map.contains_key(&k) {
            return false;
        }
        let matches = result_match_map.get(&k).unwrap();
        let mut j: usize = 0;
        while j < matches.len()
            invariant
                j <= matches@.len(),
                i < code_comments@.len(),
                *c == code_comments@[i as int],
                k == c.text_checksum,
                results == answers_view(result_match_map@),
                results.contains_key(k),
                matches@ == results[k],
                forall|x: int| 0 <= x < j ==> shiftable(#[trigger] matches@[x], *c),
            decreases matches@.len() - j,
        {
            let ok = match matches[j].more_context {
                Some(context) => context.line_number <= usize::MAX - c.start_row
                    && context.line_offset <= usize::MAX - c.start_column,
                None => false,
            };
            if !ok {
                proof {
                    assert(matches@[j as int] == results[k][j as int]);
                    assert(!shiftable(results[k][j as int], code_comments@[i as int]));
                    if answers_complete(code_comments@, results) {
                        let cc = code_comments@[i as int];
                        assert(cc.text_checksum == k);
                        assert(forall|y: int|
                            0 <= y < results[cc.text_checksum].len() ==> shiftable(
                                #[trigger] results[cc.text_checksum][y],
                                cc,
                            ));
                        assert(shiftable(results[k][j as int], cc));
                    }
                }
                return false;
            }
            j = j + 1;
        }
        proof {
            assert forall|x: int| 0 <= x < i + 1 implies {
                let cc = #[trigger] code_comments@.take(i + 1)[x];
                &&& results.contains_key(cc.text_checksum)
                &&& forall|y: int|
                    0 <= y < results[cc.text_checksum].len() ==> shiftable(
                        #[trigger] results[cc.text_checksum][y],
                        cc,
                    )
            } by {
                if x < i {
                    assert(code_comments@.take(i + 1)[x] == code_comments@.take(i as int)[x]);
                }
            }
        }
        i = i + 1;
    }
    proof {
        assert(code_comments@.take(i as int) =~= code_comments@);
    }
    true
}

/// The matches of the file, comment by comment, each shifted from its
/// place in the comment to its place in the file.
pub fn concat_matches(
    code_comments: &Vec<CodeComment>,
    result_match_map: &HashMap<u64, Vec<Match>>,
) -> (matches: Vec<Match>)
    requires
        answers_complete(code_comments@, answers_view(result_match_map@)),
    ensures
        matches@ == spec_concat_matches(code_comments@, answers_view(result_match_map@)),
{
    let ghost comments = code_comments@;
    let ghost results = answers_view(result_match_map@);
    let mut out: Vec<Match> = Vec::new();
    let mut i: usize = 0;
    while i < code_comments.len()
        invariant
            comments == code_comments@,
            results == answers_view(result_match_map@),
            answers_complete(comments, results),
            i <= comments.len(),
            out@ == spec_concat_matches(comments.take(i as int), results),
        decreases comments.len() - i,
    {
        let c = &code_comments[i];
        assert(comments[i as int] == *c);
        assert(results.contains_key(c.text_checksum));
        let found = result_match_map.get(&c.text_checksum).unwrap();
        assert(found@ == results[c.text_checksum]);
        let ghost before = out@;
        let mut j: usize = 0;
        while j < found.len()
            invariant
                j <= found@.len(),
                found@ == results[c.text_checksum],
                forall|x: int| 0 <= x < found@.len() ==> shiftable(#[trigger] found@[x], *c),
                out@ == before + found@.take(j as int).map_values(|m: Match| shifted(m, *c)),
            decreases found@.len() - j,
        {
            let m = &found[j];
            assert(shiftable(found@[j as int], *c));
            let context = m.more_context.unwrap();
            let moved = Match {
                origin: m.origin,
                rule_id: m.rule_id.clone(),
                more_context: Some(
                    MoreContext {
                        line_number: context.line_number + c.start_row,
                        line_offset: context.line_offset + c.start_column,
                    },
                ),
            };
            out.push(moved);
            proof {
                assert(found@.take(j + 1).map_values(|m: Match| shifted(m, *c)) =~= found@.take(
                    j as int,
                ).map_values(|m: Match| shifted(m, *c)).push(shifted(found@[j as int], *c)));
            }
            j = j + 1;
        }
        proof {
            assert(found@.take(j as int) =~= found@);
            assert(comments.take(i + 1).drop_last() =~= comments.take(i as int));
            assert(comments.take(i + 1).last() == *c);
        }
        i = i + 1;
    }
    proof {
        assert(comments.take(i as int) =~= comments);
    }
    out
}

} // verus!
