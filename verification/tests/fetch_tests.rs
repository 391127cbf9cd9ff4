use nebula_dnf::fetch::FetchPlan;
use nebula_dnf::pkg::PackageCategory;

#[test]
fn fetch_respects_concurrency_limit() {
    let candidates: Vec<String> = (0..10).map(|i| format!("pkg{:02}", i)).collect();
    let mut plan = FetchPlan::new(candidates, 3);
    let mut in_flight = Vec::new();
    let mut started = 0usize;
    let mut max_in_flight = 0usize;
    loop {
        // draw work until the ceiling refuses more
        while let Some(name) = plan.start() {
            in_flight.push(name);
            started += 1;
            max_in_flight = max_in_flight.max(in_flight.len());
        }
        if in_flight.is_empty() {
            break;
        }
        assert!(in_flight.len() <= 3);
        let name = in_flight.pop().unwrap();
        plan.complete(name.as_str(), Some("glibc-2.38-1.x86_64\n"), Some("Applications/Editors"));
    }
    assert_eq!(started, 10);
    assert!(max_in_flight == 3);
    let records = plan.finish();
    // one record per distinct candidate, sorted by name, no duplicates
    assert_eq!(records.len(), 10);
    for w in records.windows(2) {
        assert!(w[0].name < w[1].name);
    }
}

#[test]
fn fetch_deduplicates_candidates() {
    let candidates = vec![
        "b".to_string(),
        "a".to_string(),
        "b".to_string(),
        "a".to_string(),
    ];
    let mut plan = FetchPlan::new(candidates, 5);
    while let Some(name) = plan.start() {
        plan.complete(name.as_str(), None, None);
    }
    let records = plan.finish();
    assert_eq!(records.len(), 2);
    assert_eq!(records[0].name, "a");
    assert_eq!(records[1].name, "b");
}

#[test]
fn fetch_assembles_records_from_query_outputs() {
    let mut plan = FetchPlan::new(vec!["bash".to_string()], 1);
    let name = plan.start().unwrap();
    assert_eq!(name, "bash");
    assert!(plan.start().is_none());
    plan.complete(
        name.as_str(),
        Some("glibc-2.38-1.x86_64\nbash-5.2-1.x86_64\nncurses-libs-6.4-1.x86_64\n"),
        Some("System Environment/Base"),
    );
    let records = plan.finish();
    assert_eq!(records.len(), 1);
    let r = &records[0];
    assert_eq!(r.name, "bash");
    assert_eq!(r.category, PackageCategory::System);
    let deps: Vec<&str> = r.dependencies.iter().map(|d| d.name.as_str()).collect();
    // sorted, and the package itself is excluded
    assert_eq!(deps, vec!["glibc", "ncurses-libs"]);
}

#[test]
fn fetch_failed_queries_degrade_to_empty_unknown() {
    let mut plan = FetchPlan::new(vec!["ghost".to_string()], 2);
    let name = plan.start().unwrap();
    plan.complete(name.as_str(), None, None);
    let records = plan.finish();
    assert_eq!(records.len(), 1);
    assert_eq!(records[0].name, "ghost");
    assert_eq!(records[0].category, PackageCategory::Unknown);
    assert!(records[0].dependencies.is_empty());
}
