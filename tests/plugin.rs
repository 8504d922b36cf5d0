use orirocks::plugin::{
    check_version, index_manifest, marshal_params, marshal_res, unmarshal_err, unmarshal_params,
    unmarshal_string, Array, Error, PLUGIN_VERSION,
};

#[test]
fn version_one_is_accepted() {
    assert_eq!(PLUGIN_VERSION, 1);
    assert!(check_version(1).is_ok());
}

#[test]
fn other_versions_are_refused() {
    match check_version(0) {
        Err(Error::InvalidVersion(expected, found)) => {
            assert_eq!(expected, 1);
            assert_eq!(found, 0);
        },
        other => panic!("unexpected {:?}", other),
    }
    assert!(matches!(check_version(7), Err(Error::InvalidVersion(1, 7))));
}

#[test]
fn manifest_tables_hold_exactly_the_providers() {
    let idx = index_manifest(
        1,
        "virt".to_string(),
        vec!["qemu".to_string(), "kvm".to_string()],
        vec!["ssh".to_string()],
    )
    .unwrap();
    assert_eq!(idx.name, "virt");
    assert_eq!(idx.env.get(&"qemu".to_string()), Some(0));
    assert_eq!(idx.env.get(&"kvm".to_string()), Some(1));
    assert_eq!(idx.env.get(&"ssh".to_string()), None);
    assert_eq!(idx.env.entries.len(), 2);
    assert_eq!(idx.dep.get(&"ssh".to_string()), Some(0));
    assert_eq!(idx.dep.get(&"qemu".to_string()), None);
    assert_eq!(idx.dep.entries.len(), 1);
}

#[test]
fn manifest_of_wrong_version_is_refused() {
    let r = index_manifest(2, "virt".to_string(), vec![], vec![]);
    assert!(matches!(r, Err(Error::InvalidVersion(1, 2))));
}

#[test]
fn later_provider_of_same_name_wins() {
    let idx = index_manifest(1, "p".to_string(), vec!["a".to_string(), "a".to_string()], vec![]).unwrap();
    assert_eq!(idx.env.get(&"a".to_string()), Some(1));
}

#[test]
fn success_marshals_to_null() {
    assert!(marshal_res(Ok(())).data.is_none());
    assert!(unmarshal_err(&Array { data: None }).is_ok());
}

#[test]
fn failure_marshals_to_its_bytes() {
    let a = marshal_res(Err("boom".to_string()));
    assert_eq!(a.data, Some(b"boom".to_vec()));
    match unmarshal_err(&a) {
        Err(Error::PluginError(m)) => assert_eq!(m, "boom"),
        other => panic!("unexpected {:?}", other),
    }
}

#[test]
fn error_text_is_utf8_lossy() {
    let a = Array { data: Some(vec![b'b', b'a', b'd', 0xff, b'!']) };
    match unmarshal_err(&a) {
        Err(Error::PluginError(m)) => assert_eq!(m, "bad\u{FFFD}!"),
        other => panic!("unexpected {:?}", other),
    }
}

#[test]
fn params_round_trip() {
    let params = vec![("source".to_string(), "src:a.js".to_string()), ("dest".to_string(), "vm:/ü".to_string())];
    let m = marshal_params(&params);
    assert_eq!(m.len(), 2);
    assert_eq!(m[1].value.data, Some("vm:/ü".as_bytes().to_vec()));
    assert_eq!(unmarshal_params(&m), params);
    assert_eq!(unmarshal_string(&m[0].key), "source");
}
