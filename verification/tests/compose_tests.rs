use mop::resource::ResourceKind;
use mop::compose::{aggregate_statuses, compute_start_order, compute_stop_order, parse_depends_on};
use mop::resource::ResourceStatus;
use mop::compose::depends_on_text;

fn s(x: &str) -> String {
    x.to_string()
}

fn web_api_db() -> (Vec<String>, Vec<(String, Vec<String>)>) {
    let services = vec![s("web"), s("api"), s("db")];
    let deps = vec![
        (s("web"), vec![s("api")]),
        (s("api"), vec![s("db")]),
        (s("db"), vec![]),
    ];
    (services, deps)
}

#[test]
fn test_parse_depends_on() {
    let raw = "db:service_healthy:false,redis:service_started:false";
    let deps = parse_depends_on(raw);
    assert_eq!(deps, vec!["db", "redis"]);

    let raw_simple = "db, redis, auth";
    let deps_simple = parse_depends_on(raw_simple);
    assert_eq!(deps_simple, vec!["db", "redis", "auth"]);
}

#[test]
fn test_topological_sort_start_order() {
    // web -> api -> db
    let (services, deps) = web_api_db();
    let start_order = compute_start_order(&services, &deps);
    // db must start before api, api before web
    let db_idx = start_order.iter().position(|s| s == "db").unwrap();
    let api_idx = start_order.iter().position(|s| s == "api").unwrap();
    let web_idx = start_order.iter().position(|s| s == "web").unwrap();

    assert!(db_idx < api_idx);
    assert!(api_idx < web_idx);
}

#[test]
fn test_reverse_topological_sort_stop_order() {
    // web -> api -> db
    let (services, deps) = web_api_db();
    let stop_order = compute_stop_order(&services, &deps);
    // web must stop before api, api before db
    let web_idx = stop_order.iter().position(|s| s == "web").unwrap();
    let api_idx = stop_order.iter().position(|s| s == "api").unwrap();
    let db_idx = stop_order.iter().position(|s| s == "db").unwrap();

    assert!(web_idx < api_idx);
    assert!(api_idx < db_idx);
}

#[test]
fn test_cyclic_dependency_fallback() {
    // A -> B -> A (cyclic)
    let services = vec![s("svc-a"), s("svc-b")];
    let deps = vec![
        (s("svc-a"), vec![s("svc-b")]),
        (s("svc-b"), vec![s("svc-a")]),
    ];
    let order = compute_start_order(&services, &deps);
    assert_eq!(order.len(), 2);
    assert!(order.contains(&"svc-a".to_string()));
    assert!(order.contains(&"svc-b".to_string()));
}

#[test]
fn test_status_aggregation() {
    // All running -> Running
    assert_eq!(
        aggregate_statuses(&[ResourceStatus::Running, ResourceStatus::Running]),
        ResourceStatus::Running
    );

    // Partial running -> Degraded
    assert_eq!(
        aggregate_statuses(&[ResourceStatus::Running, ResourceStatus::Stopped]),
        ResourceStatus::Degraded
    );

    // Any failed -> Failed
    assert_eq!(
        aggregate_statuses(&[ResourceStatus::Running, ResourceStatus::Failed]),
        ResourceStatus::Failed
    );

    // Any restarting -> Restarting
    assert_eq!(
        aggregate_statuses(&[ResourceStatus::Running, ResourceStatus::Restarting]),
        ResourceStatus::Restarting
    );

    // All stopped -> Stopped
    assert_eq!(
        aggregate_statuses(&[ResourceStatus::Stopped, ResourceStatus::Stopped]),
        ResourceStatus::Stopped
    );
}

#[test]
fn start_order_of_independent_services_keeps_listed_order() {
    let services = vec![s("a"), s("b"), s("c")];
    let deps: Vec<(String, Vec<String>)> = vec![];
    assert_eq!(compute_start_order(&services, &deps), vec!["a", "b", "c"]);
    assert_eq!(compute_stop_order(&services, &deps), vec!["c", "b", "a"]);
}

#[test]
fn start_order_is_exact_for_a_chain() {
    let (services, deps) = web_api_db();
    assert_eq!(compute_start_order(&services, &deps), vec!["db", "api", "web"]);
    assert_eq!(compute_stop_order(&services, &deps), vec!["web", "api", "db"]);
}

#[test]
fn dependencies_on_unlisted_services_are_ignored() {
    let services = vec![s("web"), s("db")];
    let deps = vec![(s("web"), vec![s("db"), s("cache")])];
    assert_eq!(compute_start_order(&services, &deps), vec!["db", "web"]);
}

#[test]
fn empty_status_list_is_stopped() {
    assert_eq!(aggregate_statuses(&[]), ResourceStatus::Stopped);
    assert_eq!(
        aggregate_statuses(&[ResourceStatus::Failed, ResourceStatus::Restarting]),
        ResourceStatus::Failed
    );
    assert_eq!(
        aggregate_statuses(&[ResourceStatus::Unknown, ResourceStatus::Stopped]),
        ResourceStatus::Stopped
    );
}

#[test]
fn depends_on_label_edge_cases() {
    assert!(parse_depends_on("").is_empty());
    assert_eq!(parse_depends_on(" db ,,cache:x"), vec!["db", "cache"]);
}

#[test]
fn service_sub_state_lists_dependencies() {
    assert_eq!(depends_on_text(&[]), "depends_on: []");
    assert_eq!(
        depends_on_text(&[s("db"), s("re\"dis")]),
        "depends_on: [\"db\", \"re\\\"dis\"]"
    );
}

#[test]
fn start_order_is_first_come_first_served() {
    let services = vec![s("web"), s("db"), s("cache"), s("api")];
    let deps = vec![(s("web"), vec![s("api")]), (s("api"), vec![s("db")])];
    assert_eq!(compute_start_order(&services, &deps), vec!["db", "cache", "api", "web"]);
    assert_eq!(compute_stop_order(&services, &deps), vec!["web", "api", "cache", "db"]);
}

#[test]
fn independent_services_keep_their_listed_order() {
    let services = vec![s("c"), s("a"), s("b")];
    let deps: Vec<(String, Vec<String>)> = vec![];
    assert_eq!(compute_start_order(&services, &deps), vec!["c", "a", "b"]);
}

fn container(name: &str, project: &str, service: &str, managed: bool) -> mop::compose::ComposeContainerInfo {
    mop::compose::ComposeContainerInfo {
        container_name: name.to_string(),
        project: project.to_string(),
        service: service.to_string(),
        container_number: Some(1),
        depends_on: vec![],
        is_managed: managed,
        status: ResourceStatus::Running,
        raw_labels: vec![],
    }
}

#[test]
fn compose_containers_group_by_project_and_service() {
    let cs = vec![
        container("stack-web-1", "stack", "web", true),
        container("other-db-1", "other", "db", false),
        container("stack-db-1", "stack", "db", false),
        container("stack-web-2", "stack", "web", false),
    ];
    let (projects, services) = mop::compose::compose_groups(&cs);
    assert_eq!(projects.len(), 2);
    assert_eq!(projects[0].project, "stack");
    assert_eq!(projects[0].members, vec![0, 2, 3]);
    assert_eq!(projects[0].managed_count, 1);
    assert_eq!(projects[1].project, "other");
    assert_eq!(projects[1].managed_count, 0);
    assert_eq!(services.len(), 3);
    assert_eq!(services[0].service.as_deref(), Some("web"));
    assert_eq!(services[0].members, vec![0, 3]);
    assert_eq!(services[1].project, "other");
    assert_eq!(services[2].members, vec![2]);
}

#[test]
fn a_service_listed_twice_is_ordered_by_counting() {
    let deps = vec![(s("b"), vec![s("a")])];
    let services = vec![s("a"), s("b"), s("b")];
    assert_eq!(compute_start_order(&services, &deps), vec!["a", "b"]);
    assert_eq!(compute_stop_order(&services, &deps), vec!["b", "a"]);
    let services = vec![s("a"), s("a"), s("b")];
    assert_eq!(compute_start_order(&services, &deps), vec!["a", "a", "b"]);
    assert_eq!(compute_stop_order(&services, &deps), vec!["b", "a", "a"]);
    // a cycle among repeated names: the names not started follow once each
    let deps = vec![(s("x"), vec![s("y")]), (s("y"), vec![s("x")])];
    let services = vec![s("x"), s("y"), s("x")];
    assert_eq!(compute_start_order(&services, &deps), vec!["x", "y"]);
}

#[test]
fn compose_detail_of_a_project_and_a_service() {
    let mut cs = vec![
        container("stack-web-1", "stack", "web", true),
        container("stack-db-1", "stack", "db", false),
    ];
    cs[0].depends_on = vec![s("db")];
    cs[1].status = ResourceStatus::Stopped;
    let d = mop::collectors::compose_detail(&cs, "compose_project:stack").unwrap();
    assert_eq!(d.kind, ResourceKind::ComposeProject);
    assert_eq!(d.members, vec![0, 1]);
    assert_eq!(d.managed_count, 1);
    let d = mop::collectors::compose_detail(&cs, "compose_service:stack:web").unwrap();
    assert_eq!(d.kind, ResourceKind::ComposeService);
    assert_eq!(d.members, vec![0]);
    assert_eq!(d.status, ResourceStatus::Running);
    assert_eq!(d.sub_state, "depends_on: [\"db\"]");
    assert!(mop::collectors::compose_detail(&cs, "compose_project:other").is_none());
    assert!(mop::collectors::compose_detail(&cs, "docker:x").is_none());
}
