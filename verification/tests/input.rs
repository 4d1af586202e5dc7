use sdivi::error::AnalysisError;
use sdivi::input::validate_node_id;

fn reason_of(id: &str) -> String {
    match validate_node_id(id) {
        Err(AnalysisError::InvalidNodeId { id: got, reason }) => {
            assert_eq!(got, id);
            reason
        }
        other => panic!("expected an error for {id:?}, got {other:?}"),
    }
}

#[test]
fn valid_ids_pass() {
    assert!(validate_node_id("src/lib.rs").is_ok());
    assert!(validate_node_id("a").is_ok());
    assert!(validate_node_id("src/..hidden/x.rs").is_ok());
    assert!(validate_node_id("src/a..b.rs").is_ok());
}

#[test]
fn each_rule_has_its_reason() {
    assert_eq!(reason_of(""), "must not be empty");
    assert_eq!(reason_of("src\\lib.rs"), "must use forward slashes only");
    assert_eq!(reason_of("./src/lib.rs"), "must not start with './'");
    assert_eq!(reason_of("src/"), "must not end with '/'");
    assert_eq!(reason_of("/src/lib.rs"), "must not be an absolute path");
    assert_eq!(reason_of("src/../lib.rs"), "must not contain '..' components");
    assert_eq!(reason_of(".."), "must not contain '..' components");
    assert_eq!(reason_of("../x"), "must not contain '..' components");
}

#[test]
fn earlier_rules_take_precedence() {
    assert_eq!(reason_of("./a\\b"), "must use forward slashes only");
    assert_eq!(reason_of("/"), "must not end with '/'");
}
