use orirocks::cache::BuildCache;
use orirocks::model::{BuildDoc, DeployDoc, Document, Environment, EnvironmentStep, Import, Step};
use orirocks::plan::{update_cache, update_cache_with};
use orirocks::project::{parse_project, Project};
use orirocks::util::ORError;
use orirocks::validate::validate_project;

fn env(name: &str, action: &str) -> Environment {
    Environment {
        name: name.to_string(),
        parameters: vec![],
        steps: vec![Step::EnvironmentStep(EnvironmentStep { action: action.to_string(), parameters: vec![] })],
    }
}

fn build(name: &str, from: Option<&str>, depends: Option<Vec<&str>>, action: &str) -> Document {
    Document::Build(BuildDoc {
        name: name.to_string(),
        from: from.map(|f| f.to_string()),
        depends: depends.map(|d| d.into_iter().map(|s| s.to_string()).collect()),
        envs: vec![env("qemu/vm", action)],
    })
}

fn deploy(name: &str, artifact: &str) -> Document {
    Document::Deploy(DeployDoc {
        name: name.to_string(),
        deploy_to: "qemu/push".to_string(),
        artifact: artifact.to_string(),
        parameters: vec![],
    })
}

fn project_of(docs: Vec<Document>) -> Project {
    let p = parse_project(vec![("p.yml".to_string(), docs.into_iter().map(Ok).collect())]).unwrap();
    assert!(validate_project(&p).is_ok());
    p
}

fn chain(a_action: &str) -> Project {
    project_of(vec![
        Document::Import(vec![Import { require: "qemu".to_string(), version: "1".to_string() }]),
        build("C", Some("B"), None, "c"),
        build("A", None, None, a_action),
        build("B", None, Some(vec!["A"]), "b"),
        deploy("zz_ship", "C"),
        deploy("aa_ship", "A"),
    ])
}

fn names(layers: &Vec<Vec<String>>) -> Vec<Vec<&str>> {
    layers.iter().map(|l| l.iter().map(|s| s.as_str()).collect()).collect()
}

#[test]
fn empty_project_gives_empty_plan() {
    let p = project_of(vec![]);
    let mut cache = BuildCache::new();
    let plan = update_cache(&p, &mut cache).unwrap();
    assert!(plan.layers.is_empty());
    assert!(plan.deploys.is_empty());
}

#[test]
fn cycle_is_reported_with_its_path() {
    let p = project_of(vec![
        Document::Import(vec![Import { require: "qemu".to_string(), version: "1".to_string() }]),
        build("A", None, Some(vec!["B"]), "a"),
        build("B", None, Some(vec!["A"]), "b"),
    ]);
    let mut cache = BuildCache::new();
    match update_cache(&p, &mut cache) {
        Err(ORError::CircularDependency(text)) => assert_eq!(text, "A → B → A"),
        other => panic!("unexpected {:?}", other),
    }
    assert!(cache.build_hashes.entries.is_empty());
}

#[test]
fn first_run_builds_everything_in_layers() {
    let p = chain("a1");
    let mut cache = BuildCache::new();
    let plan = update_cache(&p, &mut cache).unwrap();
    assert_eq!(names(&plan.layers), vec![vec!["A"], vec!["B"], vec!["C"]]);
    assert_eq!(plan.deploys, vec!["aa_ship".to_string(), "zz_ship".to_string()]);
}

#[test]
fn dependency_lists_are_transitive() {
    let p = chain("a1");
    let mut cache = BuildCache::new();
    let plan = update_cache(&p, &mut cache).unwrap();
    let deps: Vec<(&str, Vec<&str>)> = plan
        .artifact_deps
        .iter()
        .map(|(n, d)| (n.as_str(), d.iter().map(|s| s.as_str()).collect()))
        .collect();
    assert_eq!(deps, vec![("A", vec![]), ("B", vec!["A"]), ("C", vec!["A", "B"])]);
}

#[test]
fn second_run_is_clean() {
    let p = chain("a1");
    let mut cache = BuildCache::new();
    update_cache(&p, &mut cache).unwrap();
    let plan = update_cache(&p, &mut cache).unwrap();
    assert!(plan.layers.is_empty());
    assert!(plan.artifact_deps.is_empty());
    assert!(plan.deploys.is_empty());
}

#[test]
fn change_in_a_dirties_its_dependents() {
    let mut cache = BuildCache::new();
    update_cache(&chain("a1"), &mut cache).unwrap();
    let plan = update_cache(&chain("a2"), &mut cache).unwrap();
    assert_eq!(names(&plan.layers), vec![vec!["A"], vec!["B"], vec!["C"]]);
    assert_eq!(plan.deploys, vec!["aa_ship".to_string(), "zz_ship".to_string()]);
}

#[test]
fn change_in_c_plans_its_dependencies_too() {
    let before = chain("a1");
    let mut cache = BuildCache::new();
    update_cache(&before, &mut cache).unwrap();
    let mut after = chain("a1");
    for b in after.builds.iter_mut() {
        if b.obj.name == "C" {
            b.obj.envs = vec![env("qemu/vm", "changed")];
        }
    }
    let plan = update_cache(&after, &mut cache).unwrap();
    assert_eq!(names(&plan.layers), vec![vec!["A"], vec!["B"], vec!["C"]]);
    assert_eq!(plan.deploys, vec!["zz_ship".to_string()]);
}

#[test]
fn rebuild_marks_everything_dirty() {
    let p = chain("a1");
    let mut cache = BuildCache::new();
    update_cache(&p, &mut cache).unwrap();
    let plan = update_cache_with(&p, &mut cache, true).unwrap();
    assert_eq!(names(&plan.layers), vec![vec!["A"], vec!["B"], vec!["C"]]);
    assert_eq!(plan.deploys.len(), 2);
}

#[test]
fn changed_import_dirties_the_builds_using_it() {
    let mut cache = BuildCache::new();
    update_cache(&chain("a1"), &mut cache).unwrap();
    let mut p = chain("a1");
    p.imports[0].obj.version = "2".to_string();
    let plan = update_cache(&p, &mut cache).unwrap();
    assert_eq!(names(&plan.layers), vec![vec!["A"], vec!["B"], vec!["C"]]);
}

#[test]
fn independent_builds_share_a_layer_in_name_order() {
    let p = project_of(vec![
        Document::Import(vec![Import { require: "qemu".to_string(), version: "1".to_string() }]),
        build("zeta", None, None, "z"),
        build("alpha", None, None, "a"),
        build("mid", None, Some(vec!["zeta", "alpha"]), "m"),
    ]);
    let mut cache = BuildCache::new();
    let plan = update_cache(&p, &mut cache).unwrap();
    assert_eq!(names(&plan.layers), vec![vec!["alpha", "zeta"], vec!["mid"]]);
}

fn with_function(body_action: &str, deploy_to: &str) -> Project {
    project_of(vec![
        Document::Import(vec![Import { require: "qemu".to_string(), version: "1".to_string() }]),
        Document::Function(orirocks::model::FunctionDoc {
            name: "setup".to_string(),
            parameter_spec: vec![],
            steps: vec![Step::EnvironmentStep(EnvironmentStep { action: body_action.to_string(), parameters: vec![] })],
        }),
        Document::Build(BuildDoc {
            name: "uses".to_string(),
            from: None,
            depends: None,
            envs: vec![Environment {
                name: "qemu/vm".to_string(),
                parameters: vec![],
                steps: vec![Step::InvokeFunctionStep(orirocks::model::InvokeFunctionStep {
                    invoke_fn: "setup".to_string(),
                    parameters: vec![],
                })],
            }],
        }),
        Document::Build(BuildDoc { name: "plain".to_string(), from: None, depends: None, envs: vec![env("qemu/vm", "x")] }),
        Document::Deploy(DeployDoc {
            name: "ship".to_string(),
            deploy_to: deploy_to.to_string(),
            artifact: "plain".to_string(),
            parameters: vec![],
        }),
    ])
}

#[test]
fn changed_function_dirties_builds_invoking_it() {
    let mut cache = BuildCache::new();
    update_cache(&with_function("one", "qemu/push"), &mut cache).unwrap();
    let plan = update_cache(&with_function("two", "qemu/push"), &mut cache).unwrap();
    assert_eq!(names(&plan.layers), vec![vec!["uses"]]);
    assert!(plan.deploys.is_empty());
}

#[test]
fn changed_deploy_alone_is_redeployed() {
    let mut cache = BuildCache::new();
    update_cache(&with_function("one", "qemu/push"), &mut cache).unwrap();
    let plan = update_cache(&with_function("one", "qemu/copy"), &mut cache).unwrap();
    assert!(plan.layers.is_empty());
    assert_eq!(plan.deploys, vec!["ship".to_string()]);
}

#[test]
fn cache_tables_keep_the_last_digest() {
    let mut t = orirocks::cache::DigestTable::new();
    assert_eq!(t.get(&"a".to_string()), None);
    t.insert("a".to_string(), 1);
    t.insert("b".to_string(), 2);
    t.insert("a".to_string(), 3);
    assert_eq!(t.get(&"a".to_string()), Some(3));
    assert_eq!(t.get(&"b".to_string()), Some(2));
}

#[test]
fn two_imports_of_one_plugin_still_settle() {
    let p = project_of(vec![
        Document::Import(vec![
            Import { require: "qemu".to_string(), version: "1".to_string() },
            Import { require: "qemu".to_string(), version: "2".to_string() },
        ]),
        build("A", None, None, "a"),
    ]);
    let mut cache = BuildCache::new();
    update_cache(&p, &mut cache).unwrap();
    let plan = update_cache(&p, &mut cache).unwrap();
    assert!(plan.layers.is_empty());
    assert!(plan.artifact_deps.is_empty());
    assert!(plan.deploys.is_empty());
}

#[test]
fn clean_dependency_of_changed_build_is_planned() {
    let two = |b_action: &str| {
        project_of(vec![
            Document::Import(vec![Import { require: "qemu".to_string(), version: "1".to_string() }]),
            build("A", None, None, "a"),
            build("B", None, Some(vec!["A"]), b_action),
            build("solo", None, None, "s"),
        ])
    };
    let mut cache = BuildCache::new();
    update_cache(&two("b1"), &mut cache).unwrap();
    let plan = update_cache(&two("b2"), &mut cache).unwrap();
    assert_eq!(names(&plan.layers), vec![vec!["A"], vec!["B"]]);
    assert_eq!(plan.artifact_deps.len(), 2);
    assert_eq!(plan.artifact_deps[1].0, "B");
    assert_eq!(plan.artifact_deps[1].1, vec!["A".to_string()]);
}
