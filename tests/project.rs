use orirocks::model::{
    BuildDoc, DeployDoc, Document, Environment, EnvironmentStep, FunctionDoc, Import,
    InvokeFunctionStep, Step,
};
use orirocks::project::{parse_project, Project};
use orirocks::util::{validate_identifier, ORError, YamlLocation};
use orirocks::validate::validate_project;

fn import(require: &str, version: &str) -> Import {
    Import { require: require.to_string(), version: version.to_string() }
}

fn env(name: &str, steps: Vec<Step>) -> Environment {
    Environment { name: name.to_string(), parameters: vec![], steps }
}

fn action(name: &str) -> Step {
    Step::EnvironmentStep(EnvironmentStep { action: name.to_string(), parameters: vec![] })
}

fn invoke(name: &str) -> Step {
    Step::InvokeFunctionStep(InvokeFunctionStep { invoke_fn: name.to_string(), parameters: vec![] })
}

fn build(name: &str, from: Option<&str>, depends: Option<Vec<&str>>, envs: Vec<Environment>) -> BuildDoc {
    BuildDoc {
        name: name.to_string(),
        from: from.map(|f| f.to_string()),
        depends: depends.map(|d| d.into_iter().map(|s| s.to_string()).collect()),
        envs,
    }
}

fn project_of(docs: Vec<Document>) -> Project {
    parse_project(vec![("p.yml".to_string(), docs.into_iter().map(Ok).collect())]).unwrap()
}

#[test]
fn import_document_gives_two_imports() {
    let p = project_of(vec![Document::Import(vec![
        import("example/plugin", "0.7.27"),
        import("example/other", "0.1"),
    ])]);
    assert_eq!(p.imports.len(), 2);
    assert_eq!(p.imports[0].obj.require, "example/plugin");
    assert_eq!(p.imports[0].obj.version, "0.7.27");
    assert_eq!(p.imports[1].obj.require, "example/other");
    assert_eq!(p.imports[1].obj.version, "0.1");
    assert_eq!(p.imports[1].location.file, "p.yml");
    assert_eq!(p.imports[1].location.document_id, 0);
    assert!(p.functions.is_empty() && p.builds.is_empty() && p.deploys.is_empty());
    assert!(validate_project(&p).is_ok());
}

#[test]
fn duplicate_build_is_refused_at_second() {
    let r = parse_project(vec![(
        "f.yml".to_string(),
        vec![
            Ok(Document::Build(build("X", None, None, vec![]))),
            Ok(Document::Build(build("X", None, None, vec![]))),
        ],
    )]);
    match r {
        Err(ORError::DuplicateSymbol(loc, kind, name)) => {
            assert_eq!(loc.file, "f.yml");
            assert_eq!(loc.document_id, 1);
            assert_eq!(kind, "artifact");
            assert_eq!(name, "X");
        },
        other => panic!("unexpected {:?}", other),
    }
}

#[test]
fn duplicate_function_across_files() {
    let f = || Document::Function(FunctionDoc { name: "f".to_string(), parameter_spec: vec![], steps: vec![] });
    let r = parse_project(vec![
        ("a.yml".to_string(), vec![Ok(f())]),
        ("b.yml".to_string(), vec![Ok(f())]),
    ]);
    match r {
        Err(ORError::DuplicateSymbol(loc, kind, name)) => {
            assert_eq!(loc.file, "b.yml");
            assert_eq!(loc.document_id, 0);
            assert_eq!(kind, "function");
            assert_eq!(name, "f");
        },
        other => panic!("unexpected {:?}", other),
    }
}

#[test]
fn unreadable_document_is_a_syntax_error() {
    let r = parse_project(vec![(
        "bad.yml".to_string(),
        vec![Ok(Document::Import(vec![])), Err("unexpected key".to_string())],
    )]);
    match r {
        Err(ORError::YamlError(loc, msg)) => {
            assert_eq!(loc.file, "bad.yml");
            assert_eq!(loc.document_id, 1);
            assert_eq!(msg, "unexpected key");
        },
        other => panic!("unexpected {:?}", other),
    }
}

fn with_env_named(name: &str) -> Project {
    project_of(vec![
        Document::Import(vec![import("qemu", "1.0")]),
        Document::Build(build("img", None, None, vec![env(name, vec![action("copy")])])),
    ])
}

#[test]
fn env_name_with_one_slash_validates() {
    assert!(validate_project(&with_env_named("qemu/vm")).is_ok());
}

#[test]
fn env_name_without_slash_is_invalid() {
    match validate_project(&with_env_named("qemu")) {
        Err(ORError::InvalidEnvironmentName(loc)) => assert_eq!(loc.path, vec!["qemu".to_string()]),
        other => panic!("unexpected {:?}", other),
    }
}

#[test]
fn env_name_with_two_slashes_is_invalid() {
    assert!(matches!(
        validate_project(&with_env_named("qemu/vm/extra")),
        Err(ORError::InvalidEnvironmentName(_))
    ));
}

#[test]
fn env_name_with_bad_character() {
    assert!(matches!(validate_project(&with_env_named("qemu/v-m")), Err(ORError::InvalidCharacter(_))));
}

#[test]
fn env_plugin_must_be_imported() {
    match validate_project(&with_env_named("kvm/vm")) {
        Err(ORError::ImportNotFound(_, name)) => assert_eq!(name, "kvm"),
        other => panic!("unexpected {:?}", other),
    }
}

#[test]
fn missing_from_is_import_not_found() {
    let p = project_of(vec![Document::Build(build("B", Some("nope"), None, vec![]))]);
    match validate_project(&p) {
        Err(ORError::ImportNotFound(_, name)) => assert_eq!(name, "nope"),
        other => panic!("unexpected {:?}", other),
    }
}

#[test]
fn missing_dependency_is_import_not_found() {
    let p = project_of(vec![
        Document::Build(build("A", None, None, vec![])),
        Document::Build(build("B", None, Some(vec!["A", "Z"]), vec![])),
    ]);
    match validate_project(&p) {
        Err(ORError::ImportNotFound(_, name)) => assert_eq!(name, "Z"),
        other => panic!("unexpected {:?}", other),
    }
}

#[test]
fn null_step_is_generic_invalid_with_crumb() {
    let p = project_of(vec![Document::Function(FunctionDoc {
        name: "f".to_string(),
        parameter_spec: vec![],
        steps: vec![action("ok"), Step::Null],
    })]);
    match validate_project(&p) {
        Err(ORError::GenericInvalid(loc)) => assert_eq!(loc.path, vec!["step #1".to_string()]),
        other => panic!("unexpected {:?}", other),
    }
}

#[test]
fn invoked_function_must_exist() {
    let p = project_of(vec![Document::Function(FunctionDoc {
        name: "f".to_string(),
        parameter_spec: vec![],
        steps: vec![invoke("g")],
    })]);
    match validate_project(&p) {
        Err(ORError::ImportNotFound(loc, name)) => {
            assert_eq!(name, "g");
            assert_eq!(loc.path, vec!["step #0".to_string()]);
        },
        other => panic!("unexpected {:?}", other),
    }
}

#[test]
fn bad_function_name() {
    let p = project_of(vec![Document::Function(FunctionDoc {
        name: "my-fn".to_string(),
        parameter_spec: vec![],
        steps: vec![],
    })]);
    assert!(matches!(validate_project(&p), Err(ORError::InvalidCharacter(_))));
}

#[test]
fn deploy_checks() {
    let base = || {
        vec![
            Document::Import(vec![import("ssh", "1")]),
            Document::Build(build("img", None, None, vec![])),
        ]
    };
    let deploy = |to: &str, art: &str| {
        Document::Deploy(DeployDoc {
            name: "d".to_string(),
            deploy_to: to.to_string(),
            artifact: art.to_string(),
            parameters: vec![],
        })
    };
    let mut ok = base();
    ok.push(deploy("ssh/host", "img"));
    assert!(validate_project(&project_of(ok)).is_ok());
    let mut missing = base();
    missing.push(deploy("ssh/host", "other"));
    assert!(matches!(validate_project(&project_of(missing)), Err(ORError::ImportNotFound(_, _))));
    let mut no_slash = base();
    no_slash.push(deploy("ssh", "img"));
    assert!(matches!(validate_project(&project_of(no_slash)), Err(ORError::GenericInvalid(_))));
}

#[test]
fn identifiers() {
    let loc = YamlLocation::new("f".to_string(), 0, vec![]);
    assert!(validate_identifier("abc_XYZ_09", &loc).is_ok());
    assert!(validate_identifier("", &loc).is_ok());
    assert!(matches!(validate_identifier("a b", &loc), Err(ORError::InvalidCharacter(_))));
    assert!(matches!(validate_identifier("é", &loc), Err(ORError::InvalidCharacter(_))));
}

#[test]
fn location_crumbs() {
    let mut loc = YamlLocation::new("f".to_string(), 3, vec![]);
    loc.push("a".to_string());
    loc.push("b".to_string());
    assert_eq!(loc.path, vec!["a".to_string(), "b".to_string()]);
    loc.pop();
    assert_eq!(loc.path, vec!["a".to_string()]);
    loc.pop();
    loc.pop();
    assert!(loc.path.is_empty());
    assert_eq!(loc.document_id, 3);
}
