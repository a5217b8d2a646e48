use code_nexus::comments::CommentManager;
use code_nexus::error::CodeNexusError;
use code_nexus::facade;
use code_nexus::relations::{Relation, RelationManager};
use code_nexus::tags::TagManager;

fn s(v: &str) -> String {
    v.to_string()
}

#[test]
fn add_relation_twice_fails_then_readd_succeeds() {
    // addRelation(A, B, "uses") twice: the second fails; after removal a
    // fresh add succeeds
    let mut rm = RelationManager::new();
    assert!(rm.add_relation("A", "B", "uses").is_ok());
    let second = rm.add_relation("A", "B", "uses");
    match second {
        Err(CodeNexusError::RelationAlreadyExists { from, to }) => {
            assert_eq!(from, s("A"));
            assert_eq!(to, s("B"));
        },
        _ => panic!("expected RelationAlreadyExists"),
    }
    assert!(rm.remove_relation("A", "B").is_ok());
    assert!(rm.add_relation("A", "B", "uses").is_ok());
}

#[test]
fn blank_description_is_rejected() {
    let mut rm = RelationManager::new();
    assert!(matches!(
        rm.add_relation("A", "B", "   "),
        Err(CodeNexusError::ConfigError(_))
    ));
    assert!(!rm.has_relation("A", "B"));
}

#[test]
fn remove_missing_relation_fails() {
    let mut rm = RelationManager::new();
    assert!(matches!(
        rm.remove_relation("A", "B"),
        Err(CodeNexusError::RelationNotFound { .. })
    ));
}

#[test]
fn incoming_mirrors_outgoing() {
    let mut rm = RelationManager::new();
    rm.add_relation("A", "B", "uses").unwrap();
    rm.add_relation("C", "B", "tests").unwrap();
    let out = rm.get_file_relations("A");
    assert_eq!(out.len(), 1);
    assert_eq!(out[0].target, s("B"));
    assert_eq!(out[0].description, s("uses"));
    let inc = rm.get_incoming_relations("B");
    assert_eq!(inc.len(), 2);
    assert_eq!(inc[0].target, s("A"));
    assert_eq!(inc[1].target, s("C"));
    assert!(rm.get_incoming_relations("A").is_empty());
}

#[test]
fn cycle_traversal_terminates_without_reexpanding() {
    // edges A→B, B→C, C→A: the walk expands each file once and stops when
    // it meets A again
    let mut rm = RelationManager::new();
    rm.add_relation("A", "B", "uses").unwrap();
    rm.add_relation("B", "C", "uses").unwrap();
    rm.add_relation("C", "A", "uses").unwrap();
    let graph = rm.get_relation_graph("A", 5);
    let keys: Vec<&String> = graph.iter().map(|e| &e.0).collect();
    assert_eq!(keys, vec![&s("A"), &s("B"), &s("C")]);
    assert_eq!(graph[0].1, vec![Relation { target: s("B"), description: s("uses") }]);
    assert_eq!(graph[1].1, vec![Relation { target: s("C"), description: s("uses") }]);
    assert_eq!(graph[2].1, vec![Relation { target: s("A"), description: s("uses") }]);
}

#[test]
fn depth_limit_bounds_the_walk() {
    let mut rm = RelationManager::new();
    rm.add_relation("A", "B", "uses").unwrap();
    rm.add_relation("B", "C", "uses").unwrap();
    let graph = rm.get_relation_graph("A", 1);
    assert_eq!(graph.len(), 1);
    assert_eq!(graph[0].0, s("A"));
    let none = rm.get_relation_graph("A", 0);
    assert!(none.is_empty());
}

#[test]
fn self_loop_is_permitted() {
    let mut rm = RelationManager::new();
    assert!(rm.add_relation("A", "A", "references itself").is_ok());
    assert!(rm.has_relation("A", "A"));
}

#[test]
fn description_search_is_case_insensitive_and_sorted() {
    let mut rm = RelationManager::new();
    rm.add_relation("b.rs", "c.rs", "Uses the parser").unwrap();
    rm.add_relation("a.rs", "c.rs", "tests the PARSER").unwrap();
    rm.add_relation("z.rs", "c.rs", "unrelated").unwrap();
    let hits = rm.query_relations_by_description("parser");
    assert_eq!(hits.len(), 2);
    assert_eq!(hits[0].0, s("a.rs"));
    assert_eq!(hits[1].0, s("b.rs"));
}

#[test]
fn cleanup_drops_edges_of_missing_files() {
    let mut rm = RelationManager::new();
    rm.add_relation("A", "B", "uses").unwrap();
    rm.add_relation("A", "C", "uses").unwrap();
    rm.add_relation("D", "A", "uses").unwrap();
    let removed = rm.cleanup_invalid_relations(&vec![s("C"), s("D")]);
    assert_eq!(removed, 2);
    assert!(rm.has_relation("A", "B"));
    assert!(!rm.has_relation("A", "C"));
    assert!(!rm.has_relation("D", "A"));
    assert!(rm.get_incoming_relations("A").is_empty());
}

#[test]
fn relations_snapshot_round_trip() {
    let mut rm = RelationManager::new();
    rm.add_relation("A", "B", "uses").unwrap();
    let data = rm.to_data();
    let rm2 = RelationManager::from_data(&data).unwrap();
    assert!(rm2.has_relation("A", "B"));
    assert_eq!(rm2.get_incoming_relations("B").len(), 1);
}

#[test]
fn comment_lifecycle() {
    let mut cm = CommentManager::new();
    assert!(cm.add_comment("f1", "the entry point").is_ok());
    assert!(matches!(
        cm.add_comment("f1", "again"),
        Err(CodeNexusError::ConfigError(_))
    ));
    assert_eq!(cm.get_comment("f1"), Some(s("the entry point")));
    assert!(cm.update_comment("f1", "revised").is_ok());
    assert_eq!(cm.get_comment("f1"), Some(s("revised")));
    assert!(cm.has_comment("f1"));
    assert!(cm.delete_comment("f1").is_ok());
    assert!(cm.get_comment("f1").is_none());
    assert!(matches!(
        cm.delete_comment("f1"),
        Err(CodeNexusError::FileNotFound(_))
    ));
}

#[test]
fn comment_search_and_listing() {
    let mut cm = CommentManager::new();
    cm.add_comment("b.rs", "Parses the INPUT").unwrap();
    cm.add_comment("a.rs", "prints output").unwrap();
    let hits = cm.search_comments("input");
    assert_eq!(hits.len(), 1);
    assert_eq!(hits[0].0, s("b.rs"));
    let files = cm.get_commented_files();
    assert_eq!(files, vec![s("a.rs"), s("b.rs")]);
    let (count, chars) = cm.get_stats();
    assert_eq!(count, 2);
    assert_eq!(chars, "Parses the INPUT".len() + "prints output".len());
}

#[test]
fn comment_cleanup_and_import() {
    let mut cm = CommentManager::new();
    cm.add_comment("f1", "one").unwrap();
    cm.add_comment("f2", "two").unwrap();
    let removed = cm.cleanup_invalid_comments(&vec![s("f1")]);
    assert_eq!(removed, 1);
    assert!(!cm.has_comment("f1"));
    assert!(cm.has_comment("f2"));
    let imported = cm.import_comments(&vec![(s("f3"), s("three")), (s("f4"), s("  "))]);
    assert_eq!(imported, 1);
    assert!(cm.has_comment("f3"));
    assert!(!cm.has_comment("f4"));
}

#[test]
fn batch_comments_follow_request_order() {
    let mut cm = CommentManager::new();
    cm.add_comment("f1", "one").unwrap();
    cm.add_comment("f3", "three").unwrap();
    let got = cm.get_comments(&vec![s("f1"), s("f2"), s("f3")]);
    assert_eq!(got, vec![(s("f1"), s("one")), (s("f3"), s("three"))]);
}

#[test]
fn file_info_combines_all_three_stores() {
    let mut tm = TagManager::new();
    let mut cm = CommentManager::new();
    let mut rm = RelationManager::new();
    tm.add_tags("f1", &vec![s("lang:go")]).unwrap();
    cm.add_comment("f1", "the entry point").unwrap();
    rm.add_relation("f1", "f2", "uses").unwrap();
    rm.add_relation("f3", "f1", "tests").unwrap();
    let info = facade::get_file_info(&tm, &cm, &rm, "f1");
    assert_eq!(info.path, s("f1"));
    assert_eq!(info.tags, vec![s("lang:go")]);
    assert_eq!(info.comment, Some(s("the entry point")));
    assert_eq!(info.relations.len(), 1);
    assert_eq!(info.relations[0].target, s("f2"));
    assert_eq!(info.incoming_relations.len(), 1);
    assert_eq!(info.incoming_relations[0].target, s("f3"));
}

#[test]
fn complex_query_combines_tags_and_relations() {
    let mut tm = TagManager::new();
    let mut rm = RelationManager::new();
    tm.add_tags("f1", &vec![s("lang:go")]).unwrap();
    tm.add_tags("f2", &vec![s("lang:go")]).unwrap();
    rm.add_relation("f1", "f3", "uses the parser").unwrap();
    let both = facade::execute_complex_query(&tm, &rm, Some("lang:go"), Some("parser")).unwrap();
    assert_eq!(both.files, vec![s("f1")]);
    assert_eq!(both.total, 1);
    let only_rel = facade::execute_complex_query(&tm, &rm, None, Some("parser")).unwrap();
    assert_eq!(only_rel.files, vec![s("f1")]);
    let only_tags = facade::execute_complex_query(&tm, &rm, Some("lang:go"), None).unwrap();
    assert_eq!(only_tags.files, vec![s("f1"), s("f2")]);
}

#[test]
fn system_status_counts() {
    let mut tm = TagManager::new();
    let mut cm = CommentManager::new();
    let mut rm = RelationManager::new();
    tm.add_tags("f1", &vec![s("lang:go")]).unwrap();
    tm.add_tags("f2", &vec![s("lang:go")]).unwrap();
    cm.add_comment("f1", "one").unwrap();
    rm.add_relation("f1", "f2", "uses").unwrap();
    let status = facade::get_system_status(&tm, &cm, &rm);
    assert_eq!(status.total_files, 2);
    assert_eq!(status.tagged_files, 2);
    assert_eq!(status.commented_files, 1);
    assert_eq!(status.total_relations, 1);
    assert_eq!(status.tag_stats.total_files, 2);
    assert_eq!(status.tag_stats.total_tags, 1);
}

#[test]
fn query_result_wraps_count() {
    let mut tm = TagManager::new();
    tm.add_tags("f1", &vec![s("lang:go")]).unwrap();
    let qr = facade::execute_tag_query(&tm, "lang:go").unwrap();
    assert_eq!(qr.files, vec![s("f1")]);
    assert_eq!(qr.total, 1);
}

#[test]
fn related_files_by_tags_and_edges() {
    let mut tm = TagManager::new();
    let mut rm = RelationManager::new();
    tm.add_tags("f1", &vec![s("lang:go")]).unwrap();
    tm.add_tags("f2", &vec![s("lang:go")]).unwrap();
    rm.add_relation("f1", "f3", "uses").unwrap();
    rm.add_relation("f4", "f1", "tests").unwrap();
    let related = facade::get_related_files(&tm, &rm, "f1", 10).unwrap();
    assert_eq!(related, vec![s("f2"), s("f3"), s("f4")]);
    let capped = facade::get_related_files(&tm, &rm, "f1", 2).unwrap();
    assert_eq!(capped, vec![s("f2"), s("f3")]);
}

#[test]
fn query_suggestions_prefix_and_contains() {
    let mut tm = TagManager::new();
    tm.add_tags("f1", &vec![s("lang:go"), s("lang:rust")]).unwrap();
    tm.add_tags("f2", &vec![s("kind:golden")]).unwrap();
    let by_type = facade::get_query_suggestions(&tm, "lang").unwrap();
    assert_eq!(by_type, vec![s("lang:go"), s("lang:rust")]);
    let by_text = facade::get_query_suggestions(&tm, "go").unwrap();
    assert_eq!(by_text, vec![s("kind:golden"), s("lang:go")]);
    assert!(facade::get_query_suggestions(&tm, "").unwrap().is_empty());
}

#[test]
fn search_files_spans_comments_and_relations() {
    let mut tm = TagManager::new();
    let mut cm = CommentManager::new();
    let mut rm = RelationManager::new();
    cm.add_comment("b.rs", "the Parser core").unwrap();
    rm.add_relation("a.rs", "b.rs", "drives the parser").unwrap();
    let found = facade::search_files(&tm, &cm, &rm, "parser");
    let paths: Vec<&String> = found.iter().map(|i| &i.path).collect();
    assert_eq!(paths, vec![&s("a.rs"), &s("b.rs")]);
}

#[test]
fn relation_stats_count_edges() {
    let mut rm = RelationManager::new();
    rm.add_relation("a", "b", "x").unwrap();
    rm.add_relation("a", "c", "y").unwrap();
    rm.add_relation("b", "c", "z").unwrap();
    let (sources, edges, targets) = rm.get_stats();
    assert_eq!((sources, edges, targets), (2, 3, 2));
    assert_eq!(rm.get_related_files(), vec![s("a"), s("b")]);
    assert_eq!(rm.get_all_relations().len(), 2);
}
