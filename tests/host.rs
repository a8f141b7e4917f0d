use tanoshi::abi::{missing_exports, Capability, CapabilityCall, ExtensionError, ProviderDescriptor};
use tanoshi::bridge::{guest_receive, host_accept, Request, Response, BRIDGE_ERROR_STATUS};
use tanoshi::bus::{select_providers, ExtensionBus, Route, Submitted};
use tanoshi::compiler::{build_plan, failed_builds, targets};
use tanoshi::instance::{CallOutcome, InstanceState, Job, RuntimeInstance};
use tanoshi::vm::{is_plugin_file, plugin_files, Command, Dispatched, LoadedPlugin, PluginCandidate, Registry};
use tanoshi::wire::{
    decode_call_args, decode_request, decode_response, encode_call_args, encode_request, encode_response,
};

fn descriptor(id: i64, name: &str) -> ProviderDescriptor {
    ProviderDescriptor {
        id,
        name: name.to_string(),
        version: "0.1.0".to_string(),
        icon: "icon.png".to_string(),
        requires_login: false,
    }
}

fn full_exports() -> Vec<String> {
    Capability::all().iter().map(|c| c.export_name().to_string()).collect()
}

fn valid(id: i64, name: &str) -> PluginCandidate {
    PluginCandidate {
        file_name: format!("{}.wasm", name),
        loaded: Some(LoadedPlugin { descriptor: descriptor(id, name), exports: full_exports() }),
    }
}

fn missing_pages(id: i64, name: &str) -> PluginCandidate {
    let exports = full_exports().into_iter().filter(|e| e != "pages").collect();
    PluginCandidate {
        file_name: format!("{}.wasm", name),
        loaded: Some(LoadedPlugin { descriptor: descriptor(id, name), exports }),
    }
}

fn broken(name: &str) -> PluginCandidate {
    PluginCandidate { file_name: format!("{}.wasm", name), loaded: None }
}

fn job(id: u64) -> Job {
    Job { id, call: CapabilityCall::Popular { page: 1 } }
}

fn sample_request() -> Request {
    Request::get("https://example.org/list?page=1")
        .set("Accept", "text/html")
        .set("Cookie", "a=1")
        .set("Accept", "application/json")
        .body("q=one piece")
}

#[test]
fn request_builder_groups_header_values() {
    let r = sample_request();
    assert_eq!(r.method, "GET");
    assert_eq!(r.url, "https://example.org/list?page=1");
    assert_eq!(r.headers.len(), 2);
    assert_eq!(r.headers[0].name, "Accept");
    assert_eq!(r.headers[0].values, vec!["text/html".to_string(), "application/json".to_string()]);
    assert_eq!(r.headers[1].name, "Cookie");
    assert_eq!(r.headers[1].values, vec!["a=1".to_string()]);
    assert_eq!(r.body, Some(b"q=one piece".to_vec()));
}

#[test]
fn request_round_trip() {
    let r = sample_request();
    let bytes = encode_request(&r);
    let back = decode_request(&bytes).expect("decodes");
    assert_eq!(back.method, r.method);
    assert_eq!(back.url, r.url);
    assert_eq!(back.body, r.body);
    assert_eq!(back.headers.len(), r.headers.len());
    for (a, b) in back.headers.iter().zip(r.headers.iter()) {
        assert_eq!(a.name, b.name);
        assert_eq!(a.values, b.values);
    }
}

#[test]
fn request_round_trip_without_body_and_non_ascii() {
    let r = Request::get("https://例え.jp/漫画").set("X-Título", "ñ");
    let back = decode_request(&encode_request(&r)).expect("decodes");
    assert_eq!(back.url, "https://例え.jp/漫画");
    assert_eq!(back.body, None);
    assert_eq!(back.headers[0].name, "X-Título");
    assert_eq!(back.headers[0].values, vec!["ñ".to_string()]);
}

#[test]
fn response_round_trip() {
    let r = Response {
        status: -7,
        headers: vec![],
        body: vec![0, 1, 2, 255],
    };
    let back = decode_response(&encode_response(&r)).expect("decodes");
    assert_eq!(back.status, -7);
    assert_eq!(back.body, vec![0, 1, 2, 255]);
    assert!(back.headers.is_empty());

    let e = Response::bridge_error("timed out");
    let back = decode_response(&encode_response(&e)).expect("decodes");
    assert_eq!(back.status, 9999);
    assert!(back.is_bridge_error());
    assert_eq!(back.body, b"timed out".to_vec());
}

#[test]
fn encoding_layout_is_length_prefixed() {
    let r = Response { status: 200, headers: vec![], body: b"ok".to_vec() };
    let bytes = encode_response(&r);
    let mut expected = vec![200, 0, 0, 0, 0, 0, 0, 0];
    expected.extend_from_slice(&[0; 8]);
    expected.extend_from_slice(&[2, 0, 0, 0, 0, 0, 0, 0]);
    expected.extend_from_slice(b"ok");
    assert_eq!(bytes, expected);
}

#[test]
fn decode_rejects_malformed_bytes() {
    let bytes = encode_request(&sample_request());
    assert!(decode_request(&bytes[..bytes.len() - 1].to_vec()).is_none());
    let mut longer = bytes.clone();
    longer.push(0);
    assert!(decode_request(&longer).is_none());
    assert!(decode_request(&vec![]).is_none());
    // a text field holding a byte that is not UTF-8
    let mut bad = vec![1, 0, 0, 0, 0, 0, 0, 0, 0xff];
    bad.extend_from_slice(&encode_request(&Request::get("u"))[12..]);
    assert!(decode_request(&bad).is_none());
}

#[test]
fn host_accepts_well_formed_request() {
    let bytes = encode_request(&Request::get("https://example.org"));
    let r = host_accept(&bytes).ok().expect("accepted");
    assert_eq!(r.method, "GET");
    assert_eq!(r.url, "https://example.org");
}

#[test]
fn host_rejects_invalid_method_with_sentinel() {
    let mut r = Request::get("https://example.org");
    r.method = "GE T".to_string();
    let e = host_accept(&encode_request(&r)).err().expect("rejected");
    assert_eq!(e.status, BRIDGE_ERROR_STATUS);
    assert_eq!(e.body, b"GE T requests are not valid: invalid HTTP method".to_vec());
    r.method = String::new();
    assert!(host_accept(&encode_request(&r)).is_err());
    r.method = "PROPFIND".to_string();
    assert!(host_accept(&encode_request(&r)).is_ok());
}

#[test]
fn host_rejects_malformed_request_with_sentinel() {
    let e = host_accept(&vec![1, 2, 3]).err().expect("rejected");
    assert_eq!(e.status, 9999);
    assert_eq!(e.body, b"malformed request".to_vec());
}

#[test]
fn guest_turns_malformed_response_into_bridge_error() {
    let r = guest_receive(&vec![9, 9]);
    assert!(r.is_bridge_error());
    assert_eq!(r.body, b"malformed response".to_vec());
    let ok = Response { status: 404, headers: vec![], body: vec![] };
    assert_eq!(guest_receive(&encode_response(&ok)).status, 404);
}

#[test]
fn missing_exports_are_reported() {
    let mut exports = full_exports();
    assert!(missing_exports(&exports).is_empty());
    exports.retain(|e| e != "search" && e != "detail");
    assert_eq!(missing_exports(&exports), vec![Capability::Search, Capability::Detail]);
    let r = RuntimeInstance::load(descriptor(1, "a"), &exports);
    assert!(matches!(r, Err(ExtensionError::LoadFailure)));
}

#[test]
fn plugin_files_keep_only_sandbox_binaries() {
    assert!(is_plugin_file("mangadex.wasm"));
    assert!(!is_plugin_file(".wasm"));
    assert!(!is_plugin_file("mangadex.wasm.bak"));
    let names = vec!["a.wasm".to_string(), "b.so".to_string(), "c.wasm".to_string()];
    assert_eq!(plugin_files(&names), vec!["a.wasm".to_string(), "c.wasm".to_string()]);
}

#[test]
fn load_registers_only_valid_plugins() {
    let mut vm = Registry::new();
    vm.load(
        vec![valid(1, "one"), broken("two"), valid(3, "three"), missing_pages(4, "four")],
        &vec![],
    );
    let list = vm.list_providers();
    assert_eq!(list.len(), 2);
    assert_eq!(list[0].id, 1);
    assert_eq!(list[1].id, 3);
    assert_eq!(list[1].name, "three");
}

#[test]
fn load_skips_a_second_plugin_with_a_taken_id() {
    let mut vm = Registry::new();
    vm.load(vec![valid(1, "one"), valid(1, "again")], &vec![]);
    let list = vm.list_providers();
    assert_eq!(list.len(), 1);
    assert_eq!(list[0].name, "one");
    let mut vm = Registry::new();
    vm.load(vec![valid(5, "five")], &vec![5]);
    assert!(vm.list_providers().is_empty());
}

#[test]
fn invoke_on_unknown_provider_is_not_found_without_queueing() {
    let mut vm = Registry::new();
    vm.load(vec![valid(1, "one")], &vec![]);
    assert!(matches!(
        vm.dispatch(Command::Invoke(42, job(7)), &vec![]),
        Dispatched::Rejected(7, ExtensionError::NotFound)
    ));
    assert!(vm.begin(42).is_none());
    // no worker of any provider saw the call
    assert!(vm.begin(1).is_none());
}

#[test]
fn calls_to_one_provider_never_overlap() {
    let mut vm = Registry::new();
    vm.load(vec![valid(1, "one")], &vec![]);
    assert!(matches!(vm.dispatch(Command::Invoke(1, job(10)), &vec![]), Dispatched::Queued));
    assert!(matches!(vm.dispatch(Command::Invoke(1, job(11)), &vec![]), Dispatched::Queued));
    let first = vm.begin(1).expect("first call starts");
    assert_eq!(first.id, 10);
    assert!(vm.begin(1).is_none());
    assert!(vm.finish(1, CallOutcome::Returned(vec![1])).0.is_ok());
    let second = vm.begin(1).expect("second call starts after the first");
    assert_eq!(second.id, 11);
}

#[test]
fn calls_to_two_providers_run_together() {
    let mut vm = Registry::new();
    vm.load(vec![valid(1, "one"), valid(2, "two")], &vec![]);
    vm.invoke(1, job(1)).unwrap();
    vm.invoke(2, job(2)).unwrap();
    assert_eq!(vm.begin(1).map(|j| j.id), Some(1));
    assert_eq!(vm.begin(2).map(|j| j.id), Some(2));
    assert_eq!(vm.finish(2, CallOutcome::Returned(vec![2])).0, Ok(vec![2]));
    assert_eq!(vm.finish(1, CallOutcome::Returned(vec![1])).0, Ok(vec![1]));
}

#[test]
fn trap_is_a_fault_and_the_provider_survives() {
    let mut vm = Registry::new();
    vm.load(vec![valid(1, "one")], &vec![]);
    vm.invoke(1, job(1)).unwrap();
    vm.begin(1).unwrap();
    assert_eq!(vm.finish(1, CallOutcome::Trapped).0, Err(ExtensionError::ExtensionFault));
    vm.invoke(1, job(2)).unwrap();
    assert_eq!(vm.begin(1).map(|j| j.id), Some(2));
    assert_eq!(vm.finish(1, CallOutcome::Returned(b"ok".to_vec())).0, Ok(b"ok".to_vec()));
}

#[test]
fn corrupted_provider_is_evicted() {
    let mut vm = Registry::new();
    vm.load(vec![valid(1, "one")], &vec![]);
    vm.invoke(1, job(1)).unwrap();
    vm.begin(1).unwrap();
    assert_eq!(vm.finish(1, CallOutcome::Corrupted).0, Err(ExtensionError::ExtensionFault));
    assert!(vm.list_providers().is_empty());
    assert_eq!(vm.invoke(1, job(2)), Err(ExtensionError::NotFound));
}

#[test]
fn guest_errors_map_to_the_caller_taxonomy() {
    let mut vm = Registry::new();
    vm.load(vec![valid(1, "one")], &vec![]);
    vm.invoke(1, job(1)).unwrap();
    vm.invoke(1, job(2)).unwrap();
    vm.begin(1).unwrap();
    assert_eq!(vm.finish(1, CallOutcome::Unsupported).0, Err(ExtensionError::Unsupported));
    vm.begin(1).unwrap();
    assert_eq!(vm.finish(1, CallOutcome::Errored).0, Err(ExtensionError::ProviderError));
    assert_eq!(vm.finish(1, CallOutcome::Returned(vec![])).0, Err(ExtensionError::NotFound));
}

#[test]
fn timed_out_call_does_not_lock_the_provider() {
    let mut vm = Registry::new();
    vm.load(vec![valid(1, "one")], &vec![]);
    vm.invoke(1, job(1)).unwrap();
    vm.begin(1).unwrap();
    // the caller of job 1 gave up; a second caller arrives meanwhile
    vm.invoke(1, job(2)).unwrap();
    assert!(vm.begin(1).is_none());
    // the worker completes job 1 although nobody waits for it
    let _ = vm.finish(1, CallOutcome::Returned(vec![5])).0;
    assert_eq!(vm.begin(1).map(|j| j.id), Some(2));
    assert_eq!(vm.finish(1, CallOutcome::Returned(vec![6])).0, Ok(vec![6]));
}

#[test]
fn instance_state_follows_its_calls() {
    let mut i = RuntimeInstance::load(descriptor(9, "nine"), &full_exports()).ok().unwrap();
    assert_eq!(i.state(), InstanceState::Ready);
    i.enqueue(job(1));
    assert_eq!(i.begin().map(|j| j.id), Some(1));
    assert_eq!(i.state(), InstanceState::Executing);
    let _ = i.finish(CallOutcome::Trapped);
    assert_eq!(i.state(), InstanceState::Ready);
    let _ = i.finish(CallOutcome::Corrupted);
    assert_eq!(i.state(), InstanceState::Failed);
}

#[test]
fn bus_keeps_native_and_sandboxed_ids_apart() {
    let mut vm = Registry::new();
    vm.load(vec![valid(2, "B")], &vec![]);
    let mut bus = ExtensionBus::new(vm);
    assert!(bus.insert(descriptor(1, "A")).is_ok());
    assert_eq!(bus.insert(descriptor(2, "B-native")), Err(ExtensionError::IdInUse));
    assert_eq!(bus.insert(descriptor(1, "A-again")), Err(ExtensionError::IdInUse));
    assert_eq!(bus.route(1), Route::Native);
    assert_eq!(bus.route(2), Route::Sandboxed);
    let names: Vec<String> = bus.list_providers().into_iter().map(|d| d.name).collect();
    assert_eq!(names, vec!["A".to_string(), "B".to_string()]);
    match bus.submit(1, job(1)) {
        Submitted::Native(j) => assert_eq!(j.id, 1),
        _ => panic!("native provider expected"),
    }
    assert!(matches!(bus.submit(2, job(2)), Submitted::Queued));
    assert_eq!(bus.begin(2).map(|j| j.id), Some(2));
    assert_eq!(bus.finish(2, CallOutcome::Returned(b"[]".to_vec())).0, Ok(b"[]".to_vec()));
    assert!(matches!(bus.submit(3, job(3)), Submitted::Rejected(3, ExtensionError::NotFound)));
}

#[test]
fn bus_load_skips_native_ids() {
    let mut bus = ExtensionBus::new(Registry::new());
    bus.insert(descriptor(1, "local")).unwrap();
    bus.load(vec![valid(1, "shadow"), valid(2, "remote")]);
    let ids: Vec<i64> = bus.list_providers().iter().map(|d| d.id).collect();
    assert_eq!(ids, vec![1, 2]);
}

#[test]
fn selector_picks_by_name() {
    let list = vec![descriptor(1, "alpha"), descriptor(2, "beta"), descriptor(3, "alpha")];
    assert_eq!(select_providers(&list, None).len(), 3);
    let picked: Vec<i64> = select_providers(&list, Some("alpha")).iter().map(|d| d.id).collect();
    assert_eq!(picked, vec![1, 3]);
    assert!(select_providers(&list, Some("gamma")).is_empty());
}

#[test]
fn build_plan_covers_every_plugin_and_target() {
    let plugins = vec!["mangadex".to_string(), "local".to_string()];
    let plan = build_plan(&plugins, false);
    assert_eq!(plan.len(), 2);
    assert_eq!(plan[1].plugin, "local");
    assert_eq!(plan[1].target, "wasm32-wasi");
    let plan = build_plan(&plugins, true);
    assert_eq!(plan.len(), 10);
    assert_eq!(plan[0].target, "wasm32-wasi");
    assert_eq!(plan[4].target, "x86_64-pc-windows-msvc");
    assert_eq!(plan[5].plugin, "local");
    assert_eq!(plan[6].target, "x86_64-unknown-linux-gnu");
    assert_eq!(targets(true).len(), 5);
    assert!(build_plan(&vec![], true).is_empty());
}

#[test]
fn failed_builds_are_reported_in_order() {
    assert_eq!(failed_builds(&vec![true, false, true, false]), vec![1, 3]);
    assert!(failed_builds(&vec![true, true]).is_empty());
}

#[test]
fn call_arguments_round_trip() {
    let calls = vec![
        CapabilityCall::SourceInfo,
        CapabilityCall::FilterList,
        CapabilityCall::Preferences,
        CapabilityCall::Popular { page: 3 },
        CapabilityCall::Latest { page: -1 },
        CapabilityCall::Search { page: 2, query: Some("naruto".to_string()), filters: Some(vec![7, 8]) },
        CapabilityCall::Search { page: 1, query: None, filters: None },
        CapabilityCall::Detail { path: "/manga/1".to_string() },
        CapabilityCall::Chapters { path: "/manga/1".to_string() },
        CapabilityCall::Pages { path: "/chapter/9".to_string() },
    ];
    for c in calls {
        let cap = c.capability();
        let bytes = encode_call_args(&c);
        let back = decode_call_args(cap, &bytes).expect("decodes");
        assert_eq!(back.capability(), cap);
        assert_eq!(encode_call_args(&back), bytes);
        match (&c, &back) {
            (CapabilityCall::Search { page: a, query: q1, filters: f1 }, CapabilityCall::Search { page: b, query: q2, filters: f2 }) => {
                assert_eq!(a, b);
                assert_eq!(q1, q2);
                assert_eq!(f1, f2);
            }
            (CapabilityCall::Latest { page: a }, CapabilityCall::Latest { page: b }) => assert_eq!(a, b),
            (CapabilityCall::Detail { path: a }, CapabilityCall::Detail { path: b }) => assert_eq!(a, b),
            _ => {}
        }
    }
}

#[test]
fn call_arguments_layout_and_rejection() {
    assert!(encode_call_args(&CapabilityCall::SourceInfo).is_empty());
    assert_eq!(encode_call_args(&CapabilityCall::Popular { page: 1 }), vec![1, 0, 0, 0, 0, 0, 0, 0]);
    assert!(decode_call_args(Capability::SourceInfo, &vec![0]).is_none());
    assert!(decode_call_args(Capability::Popular, &vec![1, 0, 0]).is_none());
    assert!(decode_call_args(Capability::Detail, &vec![1, 0, 0, 0, 0, 0, 0, 0, 0xc3]).is_none());
    assert!(matches!(
        decode_call_args(Capability::Detail, &vec![1, 0, 0, 0, 0, 0, 0, 0, b'x']),
        Some(CapabilityCall::Detail { ref path }) if path == "x"
    ));
}

#[test]
fn response_status_field_beyond_32_bits_is_rejected() {
    let mut bytes = encode_response(&Response { status: 5, headers: vec![], body: vec![] });
    assert!(decode_response(&bytes).is_some());
    bytes[4] = 1;
    assert!(decode_response(&bytes).is_none());
}

#[test]
fn eviction_hands_back_the_queued_calls() {
    let mut vm = Registry::new();
    vm.load(vec![valid(1, "one")], &vec![]);
    vm.invoke(1, job(1)).unwrap();
    vm.invoke(1, job(2)).unwrap();
    vm.invoke(1, job(3)).unwrap();
    vm.begin(1).unwrap();
    let (r, dropped) = vm.finish(1, CallOutcome::Corrupted);
    assert_eq!(r, Err(ExtensionError::ExtensionFault));
    assert_eq!(dropped, vec![2, 3]);
    assert_eq!(vm.invoke(1, job(4)), Err(ExtensionError::NotFound));
}

#[test]
fn unload_hands_back_the_queued_calls() {
    let mut vm = Registry::new();
    vm.load(vec![valid(1, "one"), valid(2, "two")], &vec![]);
    vm.invoke(1, job(5)).unwrap();
    match vm.dispatch(Command::Unload(1), &vec![]) {
        Dispatched::Unloaded(Some(ids)) => assert_eq!(ids, vec![5]),
        other => panic!("unexpected {:?}", other),
    }
    assert!(matches!(vm.dispatch(Command::Unload(1), &vec![]), Dispatched::Unloaded(None)));
    assert_eq!(vm.unload(2), Some(vec![]));
    assert_eq!(vm.invoke(1, job(6)), Err(ExtensionError::NotFound));
    assert!(vm.list_providers().is_empty());
}

#[test]
fn loaded_descriptors_are_the_plugins_own() {
    let mut vm = Registry::new();
    let mut c = valid(7, "seven");
    if let Some(p) = c.loaded.as_mut() {
        p.descriptor.requires_login = true;
        p.descriptor.version = "2.3.4".to_string();
    }
    vm.load(vec![c], &vec![]);
    let d = &vm.list_providers()[0];
    assert_eq!(d.name, "seven");
    assert_eq!(d.version, "2.3.4");
    assert!(d.requires_login);
}
