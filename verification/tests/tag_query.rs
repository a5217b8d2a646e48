use code_nexus::error::CodeNexusError;
use code_nexus::tags::TagManager;

fn s(v: &str) -> String {
    v.to_string()
}

#[test]
fn add_tags_then_get_contains_them() {
    let mut tm = TagManager::new();
    let added = tm.add_tags("f1", &vec![s("category:api"), s("lang:go")]).unwrap();
    assert_eq!(added, vec![s("category:api"), s("lang:go")]);
    let tags = tm.get_file_tags("f1");
    assert!(tags.contains(&s("category:api")));
    assert!(tags.contains(&s("lang:go")));
}

#[test]
fn re_adding_tags_is_idempotent() {
    let mut tm = TagManager::new();
    tm.add_tags("f1", &vec![s("category:api"), s("lang:go")]).unwrap();
    let before = tm.get_file_tags("f1");
    let added = tm.add_tags("f1", &vec![s("category:api"), s("lang:go")]).unwrap();
    assert!(added.is_empty());
    assert_eq!(tm.get_file_tags("f1"), before);
}

#[test]
fn invalid_tag_rejected_all_or_nothing() {
    let mut tm = TagManager::new();
    let r = tm.add_tags("f1", &vec![s("category:api"), s("notag")]);
    assert!(matches!(r, Err(CodeNexusError::InvalidTagFormat(_))));
    assert!(tm.get_file_tags("f1").is_empty());
    assert!(matches!(
        tm.add_tags("f1", &vec![s(":empty")]),
        Err(CodeNexusError::InvalidTagFormat(_))
    ));
    assert!(matches!(
        tm.add_tags("f1", &vec![s("empty:")]),
        Err(CodeNexusError::InvalidTagFormat(_))
    ));
    assert!(matches!(
        tm.add_tags("f1", &vec![s("a:b:c")]),
        Err(CodeNexusError::InvalidTagFormat(_))
    ));
}

#[test]
fn validate_tag_checks_shape() {
    let tm = TagManager::new();
    assert!(tm.validate_tag("type:value").is_ok());
    assert!(tm.validate_tag("notag").is_err());
    assert!(tm.validate_tag(":v").is_err());
    assert!(tm.validate_tag("t:").is_err());
    assert!(tm.validate_tag("a:b:c").is_err());
}

#[test]
fn and_query_intersects() {
    // tag f1 with category:api and lang:go, f2 with category:api alone
    let mut tm = TagManager::new();
    tm.add_tags("f1", &vec![s("category:api"), s("lang:go")]).unwrap();
    tm.add_tags("f2", &vec![s("category:api")]).unwrap();
    let r = tm.query_files_by_tags("category:api AND lang:go").unwrap();
    assert_eq!(r, vec![s("f1")]);
    let all = tm.query_files_by_tags("category:api").unwrap();
    assert_eq!(all, vec![s("f1"), s("f2")]);
}

#[test]
fn or_query_unions_disjoint_queries() {
    let mut tm = TagManager::new();
    tm.add_tags("f1", &vec![s("lang:go")]).unwrap();
    tm.add_tags("f2", &vec![s("lang:rust")]).unwrap();
    tm.add_tags("f3", &vec![s("kind:doc")]).unwrap();
    let a = tm.query_files_by_tags("lang:go").unwrap();
    let b = tm.query_files_by_tags("lang:rust").unwrap();
    let both = tm.query_files_by_tags("lang:go OR lang:rust").unwrap();
    assert_eq!(both, vec![s("f1"), s("f2")]);
    assert!(a.iter().all(|f| both.contains(f)));
    assert!(b.iter().all(|f| both.contains(f)));
}

#[test]
fn not_query_complements_against_tagged_files() {
    let mut tm = TagManager::new();
    tm.add_tags("f1", &vec![s("lang:go")]).unwrap();
    tm.add_tags("f2", &vec![s("lang:rust")]).unwrap();
    tm.add_tags("f3", &vec![s("kind:doc")]).unwrap();
    let r = tm.query_files_by_tags("NOT lang:go").unwrap();
    assert_eq!(r, vec![s("f2"), s("f3")]);
}

#[test]
fn prefix_wildcard_unions_matching_tags() {
    let mut tm = TagManager::new();
    tm.add_tags("f1", &vec![s("type:module")]).unwrap();
    tm.add_tags("f2", &vec![s("type:binary")]).unwrap();
    tm.add_tags("f3", &vec![s("lang:go")]).unwrap();
    let r = tm.query_files_by_tags("type:*").unwrap();
    assert_eq!(r, vec![s("f1"), s("f2")]);
}

#[test]
fn wildcard_positions() {
    let tm = TagManager::new();
    assert!(tm.wildcard_match("type:*", "type:module"));
    assert!(!tm.wildcard_match("type:*", "lang:go"));
    assert!(tm.wildcard_match("*:go", "lang:go"));
    assert!(tm.wildcard_match("l*go", "lang:go"));
    assert!(!tm.wildcard_match("l*x", "lang:go"));
    assert!(tm.wildcard_match("plain", "plain"));
    assert!(!tm.wildcard_match("plain", "other"));
}

#[test]
fn empty_query_yields_no_files() {
    let mut tm = TagManager::new();
    tm.add_tags("f1", &vec![s("lang:go")]).unwrap();
    assert!(tm.query_files_by_tags("").unwrap().is_empty());
    assert!(tm.query_files_by_tags("   ").unwrap().is_empty());
}

#[test]
fn unknown_tag_query_is_empty_not_an_error() {
    let tm = TagManager::new();
    let r = tm.query_files_by_tags("no:such").unwrap();
    assert!(r.is_empty());
}

#[test]
fn parenthesised_query_is_unwrapped() {
    let mut tm = TagManager::new();
    tm.add_tags("f1", &vec![s("lang:go")]).unwrap();
    let r = tm.query_files_by_tags("(lang:go)").unwrap();
    assert_eq!(r, vec![s("f1")]);
}

#[test]
fn removing_all_tags_deletes_the_entry() {
    let mut tm = TagManager::new();
    tm.add_tags("f1", &vec![s("category:api"), s("lang:go")]).unwrap();
    let removed = tm.remove_tags("f1", &vec![s("category:api"), s("lang:go")]).unwrap();
    assert_eq!(removed, vec![s("category:api"), s("lang:go")]);
    assert!(tm.get_file_tags("f1").is_empty());
    assert!(tm.get_all_tags().is_empty());
    let (files, tags, types) = tm.get_stats();
    assert_eq!((files, tags, types), (0, 0, 0));
}

#[test]
fn remove_unknown_tag_is_all_or_nothing() {
    // removeTags on a file never tagged with lang:go leaves it unchanged
    let mut tm = TagManager::new();
    tm.add_tags("f1", &vec![s("category:api")]).unwrap();
    let r = tm.remove_tags("f1", &vec![s("lang:go")]);
    match r {
        Err(CodeNexusError::TagNotFound { tag, file }) => {
            assert_eq!(tag, s("lang:go"));
            assert_eq!(file, s("f1"));
        },
        _ => panic!("expected TagNotFound"),
    }
    assert_eq!(tm.get_file_tags("f1"), vec![s("category:api")]);
}

#[test]
fn remove_tags_from_unknown_file_fails() {
    let mut tm = TagManager::new();
    let r = tm.remove_tags("ghost", &vec![s("lang:go")]);
    assert!(matches!(r, Err(CodeNexusError::FileNotFound(_))));
}

#[test]
fn get_all_tags_groups_by_type_sorted() {
    let mut tm = TagManager::new();
    tm.add_tags("f1", &vec![s("lang:go"), s("lang:c")]).unwrap();
    tm.add_tags("f2", &vec![s("lang:rust")]).unwrap();
    let all = tm.get_all_tags();
    assert_eq!(all.len(), 1);
    assert_eq!(all[0].0, s("lang"));
    assert_eq!(all[0].1, vec![s("c"), s("go"), s("rust")]);
}

#[test]
fn tag_index_prunes_with_last_use() {
    let mut tm = TagManager::new();
    tm.add_tags("f1", &vec![s("lang:go")]).unwrap();
    tm.add_tags("f2", &vec![s("lang:go")]).unwrap();
    tm.remove_tags("f1", &vec![s("lang:go")]).unwrap();
    assert_eq!(tm.get_all_tags(), vec![(s("lang"), vec![s("go")])]);
    tm.remove_tags("f2", &vec![s("lang:go")]).unwrap();
    assert!(tm.get_all_tags().is_empty());
}

#[test]
fn snapshot_round_trip() {
    let mut tm = TagManager::new();
    tm.add_tags("f1", &vec![s("lang:go")]).unwrap();
    tm.add_tags("f2", &vec![s("category:api")]).unwrap();
    let data = tm.to_data();
    let tm2 = TagManager::from_data(&data).unwrap();
    assert_eq!(tm2.get_file_tags("f1"), vec![s("lang:go")]);
    assert_eq!(tm2.get_file_tags("f2"), vec![s("category:api")]);
}

#[test]
fn snapshot_with_bad_tag_is_rejected() {
    let data = code_nexus::tags::TagsData {
        file_tags: vec![(s("f1"), vec![s("notag")])],
    };
    assert!(matches!(
        TagManager::from_data(&data),
        Err(CodeNexusError::InvalidTagFormat(_))
    ));
}

#[test]
fn validate_query_syntax_cheap_checks() {
    assert!(code_nexus::query::validate_query_syntax("lang:go").is_ok());
    assert!(code_nexus::query::validate_query_syntax("").is_err());
    assert!(code_nexus::query::validate_query_syntax("   ").is_err());
    assert!(code_nexus::query::validate_query_syntax("a:b AND ").is_ok());
    assert!(code_nexus::query::validate_query_syntax("a:b AND  AND c:d").is_err());
    assert!(code_nexus::query::validate_query_syntax("a:b AND c:d").is_ok());
    assert!(code_nexus::query::validate_query_syntax("a:b:c").is_err());
    assert!(code_nexus::query::validate_query_syntax("a:b c:d").is_ok());
}

#[test]
fn error_codes_are_stable() {
    assert_eq!(CodeNexusError::FileNotFound(s("x")).error_code(), "FILE_NOT_FOUND");
    assert_eq!(CodeNexusError::InvalidTagFormat(s("x")).error_code(), "INVALID_TAG_FORMAT");
    assert_eq!(CodeNexusError::InvalidQuerySyntax(s("x")).error_code(), "INVALID_QUERY_SYNTAX");
    assert_eq!(
        CodeNexusError::RelationAlreadyExists { from: s("a"), to: s("b") }.error_code(),
        "RELATION_ALREADY_EXISTS"
    );
    assert_eq!(
        CodeNexusError::RelationNotFound { from: s("a"), to: s("b") }.error_code(),
        "RELATION_NOT_FOUND"
    );
    assert_eq!(
        CodeNexusError::TagNotFound { tag: s("t"), file: s("f") }.error_code(),
        "TAG_NOT_FOUND"
    );
    assert!(!CodeNexusError::StorageError(s("x")).recovery_suggestion().is_empty());
}

#[test]
fn get_untagged_files_is_empty_without_a_filesystem() {
    let tm = TagManager::new();
    assert!(tm.get_untagged_files().is_empty());
}
