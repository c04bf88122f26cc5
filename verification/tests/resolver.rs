use ecs_shell::errors::AppError;
use ecs_shell::select::{find_item, select_item};

fn strings(items: &[&str]) -> Vec<String> {
    items.iter().map(|s| s.to_string()).collect()
}

#[test]
fn hint_picks_first_containing_candidate() {
    let items = strings(&["prod-east", "prod-west"]);
    let r = find_item("Cluster", &Some("prod".to_string()), items);
    match r {
        Ok(s) => assert_eq!(s, "prod-east"),
        Err(_) => panic!("expected a match"),
    }
}

#[test]
fn hint_matches_in_candidate_order_not_best_fit() {
    let items = strings(&["alpha-service", "service-alpha", "alpha"]);
    let r = find_item("Service", &Some("alpha".to_string()), items);
    match r {
        Ok(s) => assert_eq!(s, "alpha-service"),
        Err(_) => panic!("expected a match"),
    }
}

#[test]
fn hint_without_match_is_not_found_with_label_and_hint() {
    let items = strings(&["one", "two"]);
    let r = find_item("Task", &Some("xyz".to_string()), items);
    match r {
        Ok(_) => panic!("expected no match"),
        Err(AppError::NotFound { label, hint }) => {
            assert_eq!(label, "Task");
            assert_eq!(hint, "xyz");
        }
        Err(_) => panic!("expected a not-found error"),
    }
}

#[test]
fn single_candidate_resolves_silently_without_hint() {
    let items = strings(&["only-one"]);
    let r = find_item("Cluster", &None, items);
    match r {
        Ok(s) => assert_eq!(s, "only-one"),
        Err(_) => panic!("expected silent resolution"),
    }
}

#[test]
fn empty_candidates_without_hint_fail_with_interaction_error() {
    let items = strings(&[]);
    let r = find_item("Cluster", &None, items);
    match r {
        Ok(_) => panic!("expected a failure"),
        Err(AppError::Interaction(_)) => {}
        Err(_) => panic!("expected an interaction error"),
    }
}

#[test]
fn select_item_returns_single_candidate() {
    let items = strings(&["lonely"]);
    let r = select_item("Account", &items);
    match r {
        Ok(s) => assert_eq!(s, "lonely"),
        Err(_) => panic!("expected the single item"),
    }
}

#[test]
fn select_item_on_empty_list_is_interaction_error() {
    let items: Vec<String> = Vec::new();
    let r = select_item("Account", &items);
    match r {
        Ok(_) => panic!("expected a failure"),
        Err(AppError::Interaction(_)) => {}
        Err(_) => panic!("expected an interaction error"),
    }
}

#[test]
fn hint_matching_is_case_sensitive() {
    let items = strings(&["Prod-east"]);
    let r = find_item("Cluster", &Some("prod".to_string()), items);
    assert!(matches!(r, Err(AppError::NotFound { .. })));
}

#[test]
fn duplicate_candidates_resolve_to_the_first() {
    let items = strings(&["twin", "twin"]);
    let r = find_item("Cluster", &Some("twin".to_string()), items);
    match r {
        Ok(s) => assert_eq!(s, "twin"),
        Err(_) => panic!("expected a match"),
    }
}
