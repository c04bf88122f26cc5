use ecs_shell::cascade::{task_platform, Cascade, CascadeStep, ResourceHints};
use ecs_shell::errors::AppError;
use ecs_shell::launch::{attach_command_args, shell_entry_point};

fn strings(items: &[&str]) -> Vec<String> {
    items.iter().map(|s| s.to_string()).collect()
}

fn hints(cluster: Option<&str>, service: Option<&str>, task: Option<&str>) -> ResourceHints {
    ResourceHints {
        cluster: cluster.map(|s| s.to_string()),
        service: service.map(|s| s.to_string()),
        task: task.map(|s| s.to_string()),
    }
}

#[test]
fn cascade_runs_hinted_steps_in_order() {
    let mut c = Cascade::new(hints(Some("prod"), None, Some("t2")));
    assert!(matches!(c.step, CascadeStep::Clusters));

    c.supply_clusters(strings(&["prod-east", "prod-west"])).expect("cluster step");
    match &c.step {
        CascadeStep::Services { cluster } => assert_eq!(cluster, "prod-east"),
        _ => panic!("expected the service step"),
    }

    c.supply_services(strings(&["svc-only"])).expect("service step");
    match &c.step {
        CascadeStep::Tasks { cluster, service } => {
            assert_eq!(cluster, "prod-east");
            assert_eq!(service, "svc-only");
        }
        _ => panic!("expected the task step"),
    }

    c.supply_tasks(strings(&["t1", "t2"])).expect("task step");
    match &c.step {
        CascadeStep::TaskDetail { cluster, service, task } => {
            assert_eq!(cluster, "prod-east");
            assert_eq!(service, "svc-only");
            assert_eq!(task, "t2");
        }
        _ => panic!("expected the detail step"),
    }

    c.supply_task_detail(Some(Some("LINUX".to_string()))).expect("platform lookup");
    match &c.step {
        CascadeStep::Done { cluster, task, platform, .. } => {
            assert_eq!(cluster, "prod-east");
            assert_eq!(task, "t2");
            assert_eq!(platform, "LINUX");
        }
        _ => panic!("expected the cascade to conclude"),
    }
}

#[test]
fn service_scope_is_the_chosen_cluster_not_the_hint() {
    let mut c = Cascade::new(hints(Some("prod"), None, None));
    c.supply_clusters(strings(&["prod-east", "prod-west"])).expect("cluster step");
    match &c.step {
        CascadeStep::Services { cluster } => {
            assert_eq!(cluster, "prod-east");
            assert_ne!(cluster, "prod");
        }
        _ => panic!("expected the service step"),
    }
}

#[test]
fn empty_cluster_list_without_hint_fails_and_stays_put() {
    let mut c = Cascade::new(hints(None, None, None));
    let r = c.supply_clusters(Vec::new());
    assert!(matches!(r, Err(AppError::Interaction(_))));
    assert!(matches!(c.step, CascadeStep::Clusters));
}

#[test]
fn unmatched_cluster_hint_is_not_found() {
    let mut c = Cascade::new(hints(Some("qa"), None, None));
    let r = c.supply_clusters(strings(&["prod-east"]));
    match r {
        Err(AppError::NotFound { label, hint }) => {
            assert_eq!(label, "Cluster");
            assert_eq!(hint, "qa");
        }
        _ => panic!("expected a not-found error"),
    }
}

#[test]
fn absent_task_data_is_fatal_not_found() {
    match task_platform(None, "arn:task") {
        Err(AppError::NotFound { label, hint }) => {
            assert_eq!(label, "Platform");
            assert_eq!(hint, "arn:task");
        }
        _ => panic!("expected a not-found error"),
    }
    assert!(matches!(
        task_platform(Some(None), "arn:task"),
        Err(AppError::NotFound { .. })
    ));
    assert_eq!(task_platform(Some(Some("WINDOWS".to_string())), "t").unwrap(), "WINDOWS");
}

#[test]
fn windows_platform_selects_windows_shell() {
    assert_eq!(shell_entry_point(None, "WINDOWS_SERVER_2019_FULL"), "powershell.exe");
}

#[test]
fn posix_platform_selects_posix_shell() {
    assert_eq!(shell_entry_point(None, "LINUX"), "/bin/bash");
}

#[test]
fn explicit_entry_point_overrides_platform_default() {
    assert_eq!(
        shell_entry_point(Some("/bin/zsh".to_string()), "WINDOWS_SERVER_2019_FULL"),
        "/bin/zsh"
    );
    assert_eq!(shell_entry_point(Some("/bin/zsh".to_string()), "LINUX"), "/bin/zsh");
}

#[test]
fn attach_arguments_without_region() {
    let args = attach_command_args("p1", &None, "c1", "t1", "/bin/bash");
    assert_eq!(
        args,
        strings(&[
            "ecs",
            "execute-command",
            "--cluster",
            "c1",
            "--task",
            "t1",
            "--interactive",
            "--command",
            "/bin/bash",
            "--profile",
            "p1",
        ])
    );
}

#[test]
fn attach_arguments_with_region() {
    let args = attach_command_args(
        "p1",
        &Some("eu-west-1".to_string()),
        "c1",
        "t1",
        "powershell.exe",
    );
    assert_eq!(
        args,
        strings(&[
            "ecs",
            "execute-command",
            "--cluster",
            "c1",
            "--task",
            "t1",
            "--interactive",
            "--command",
            "powershell.exe",
            "--profile",
            "p1",
            "--region",
            "eu-west-1",
        ])
    );
}
