use std::collections::HashMap;

use languagetool_code_comments::commands::{
    answers_are_complete, comments_checksum_map, concat_matches, plan_queries, record_results,
};
use languagetool_code_comments::lt::{Match, MoreContext, QueryResult};
use languagetool_code_comments::parse::CodeComment;

fn comment(text: &str, checksum: u64, row: usize, column: usize) -> CodeComment {
    CodeComment { text: text.to_string(), text_checksum: checksum, start_row: row, start_column: column }
}

fn at(origin: usize, line: usize, offset: usize) -> Match {
    Match {
        origin,
        rule_id: "MORFOLOGIK_RULE_EN_US".to_string(),
        more_context: Some(MoreContext { line_number: line, line_offset: offset }),
    }
}

#[test]
fn checksum_map_keeps_the_last_text() {
    let comments = vec![comment("a", 1, 0, 0), comment("b", 2, 1, 0), comment("c", 1, 2, 0)];
    let map = comments_checksum_map(&comments);
    assert_eq!(map.len(), 2);
    assert_eq!(map[&1], "c");
    assert_eq!(map[&2], "b");
}

#[test]
fn plan_dedupes_and_uses_the_cache() {
    let comments = vec![
        comment("# one", 11, 0, 0),
        comment("# two", 22, 3, 0),
        comment("# one", 11, 7, 4),
        comment("# three", 33, 9, 0),
    ];
    let mut cached = HashMap::new();
    cached.insert(22u64, vec![at(0, 0, 2)]);
    cached.insert(99u64, vec![at(1, 0, 0)]);
    let plan = plan_queries(&comments, &cached, "en-US");
    assert_eq!(plan.result_match_map.len(), 1);
    assert_eq!(plan.result_match_map[&22].len(), 1);
    assert_eq!(plan.result_match_map[&22][0].origin, 0);
    let mut keys: Vec<u64> = plan.query_requests.iter().map(|r| r.text_checksum).collect();
    keys.sort();
    assert_eq!(keys, vec![11, 33]);
    for r in plan.query_requests.iter() {
        assert_eq!(r.language, "en-US");
        assert_eq!(r.text, if r.text_checksum == 11 { "# one" } else { "# three" });
    }
}

#[test]
fn nothing_to_ask_when_all_is_cached() {
    let comments = vec![comment("# one", 11, 0, 0)];
    let mut cached = HashMap::new();
    cached.insert(11u64, vec![]);
    let plan = plan_queries(&comments, &cached, "auto");
    assert!(plan.query_requests.is_empty());
    assert!(plan.result_match_map[&11].is_empty());
}

#[test]
fn test_commands_flow_one_match() {
    let comments = vec![comment("# I am a commment with a typo.", 5, 2, 4)];
    let plan = plan_queries(&comments, &HashMap::new(), "en");
    assert_eq!(plan.query_requests.len(), 1);
    let mut results = plan.result_match_map;
    record_results(&mut results, &vec![QueryResult { text_checksum: 5, matches: vec![at(0, 0, 12)] }]);
    assert!(answers_are_complete(&comments, &results));
    let res = concat_matches(&comments, &results);
    assert_eq!(res.len(), 1);
    let context = res[0].more_context.unwrap();
    assert_eq!((context.line_number, context.line_offset), (2, 16));
}

#[test]
fn concat_shifts_each_comment_and_repeats_shared_answers() {
    let comments = vec![comment("# a", 1, 0, 0), comment("# b", 2, 10, 2), comment("# a", 1, 20, 6)];
    let mut results = HashMap::new();
    results.insert(1u64, vec![at(0, 0, 1), at(1, 1, 0)]);
    results.insert(2u64, vec![]);
    assert!(answers_are_complete(&comments, &results));
    let res = concat_matches(&comments, &results);
    let got: Vec<(usize, usize, usize)> = res
        .iter()
        .map(|m| {
            let c = m.more_context.unwrap();
            (m.origin, c.line_number, c.line_offset)
        })
        .collect();
    assert_eq!(got, vec![(0, 0, 1), (1, 1, 0), (0, 20, 7), (1, 21, 6)]);
}

#[test]
fn incomplete_answers_are_detected() {
    let comments = vec![comment("# a", 1, 0, 0)];
    assert!(!answers_are_complete(&comments, &HashMap::new()));
    let mut results = HashMap::new();
    results.insert(1u64, vec![Match { origin: 0, rule_id: "X".to_string(), more_context: None }]);
    assert!(!answers_are_complete(&comments, &results));
    let mut results = HashMap::new();
    results.insert(1u64, vec![at(0, usize::MAX, 0)]);
    assert!(answers_are_complete(&comments, &results));
    let shifted = vec![comment("# a", 1, 1, 0)];
    assert!(!answers_are_complete(&shifted, &results));
}

#[test]
fn later_results_override_earlier_ones() {
    let mut results = HashMap::new();
    results.insert(1u64, vec![at(0, 0, 0)]);
    record_results(
        &mut results,
        &vec![
            QueryResult { text_checksum: 1, matches: vec![] },
            QueryResult { text_checksum: 2, matches: vec![at(1, 0, 0)] },
            QueryResult { text_checksum: 2, matches: vec![at(2, 0, 0), at(3, 0, 0)] },
        ],
    );
    assert!(results[&1].is_empty());
    assert_eq!(results[&2].len(), 2);
}

#[test]
fn second_check_repeats_the_first() {
    let comments = vec![comment("# a", 1, 0, 0), comment("# b", 2, 4, 2), comment("# a", 1, 8, 0)];
    let first = plan_queries(&comments, &HashMap::new(), "en");
    assert_eq!(first.query_requests.len(), 2);
    let mut saved = first.result_match_map;
    record_results(
        &mut saved,
        &vec![
            QueryResult { text_checksum: 1, matches: vec![at(0, 0, 2)] },
            QueryResult { text_checksum: 2, matches: vec![at(1, 0, 1), at(2, 0, 0)] },
        ],
    );
    let first_matches = concat_matches(&comments, &saved);

    let second = plan_queries(&comments, &saved, "en");
    assert!(second.query_requests.is_empty());
    let again = second.result_match_map;
    assert_eq!(again.len(), saved.len());
    let second_matches = concat_matches(&comments, &again);
    let key = |m: &Match| {
        let c = m.more_context.unwrap();
        (m.origin, c.line_number, c.line_offset)
    };
    assert_eq!(
        first_matches.iter().map(key).collect::<Vec<_>>(),
        second_matches.iter().map(key).collect::<Vec<_>>()
    );
    assert_eq!(again[&2][0].more_context.unwrap().line_offset, 1);
}
