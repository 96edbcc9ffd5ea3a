use aicirt::registry::{
    check_module, check_module_id, decode_module, is_hex_string, module_id, plan_cache, CachePlan,
    prompt_tokens, PendingTable, PromptError, RegistryError,
};
use sha2::Digest;

fn expected_id(meta: &[u8], wasm: &[u8]) -> String {
    let mut h = sha2::Sha256::new();
    h.update(meta);
    h.update(wasm);
    hex::encode(h.finalize())
}

#[test]
fn module_id_of_null_meta() {
    // meta {} is sent as the JSON `null`
    let wasm: Vec<u8> = vec![0, 0x61, 0x73, 0x6d, 1, 0, 0, 0];
    let id = module_id(b"null", &wasm);
    assert_eq!(id.len(), 64);
    assert!(id.chars().all(|c| c.is_ascii_digit() || ('a'..='f').contains(&c)));
    assert_eq!(id, expected_id(b"null", &wasm));
    assert_eq!(
        module_id(b"null", b""),
        "74234e98afe7498fb5daf1f36ac2d78acc339464f950703b8c019892f982b90b"
    );
}

#[test]
fn module_id_is_content_addressed() {
    let a = module_id(b"{}", b"abc");
    let b = module_id(b"{}", b"abc");
    let c = module_id(b"{}", b"abd");
    assert_eq!(a, b);
    assert_ne!(a, c);
}

#[test]
fn decode_module_checks_base64_and_meta() {
    // "AGFzbQEAAAA=" is the 8-byte wasm header
    let (wasm, id) = decode_module(b"AGFzbQEAAAA=", b"null").ok().unwrap();
    assert_eq!(wasm, vec![0, 0x61, 0x73, 0x6d, 1, 0, 0, 0]);
    assert_eq!(id, expected_id(b"null", &wasm));
    assert!(matches!(decode_module(b"not base64!", b"null"), Err(RegistryError::InvalidBase64)));
    assert!(matches!(decode_module(b"AGFzbQEAAAA=", b"{oops"), Err(RegistryError::InvalidMeta)));
}

#[test]
fn check_module_rejects_non_json_meta() {
    assert_eq!(check_module(b"x", b"nope").err(), Some(RegistryError::InvalidMeta));
    assert_eq!(check_module(b"x", b"{\"a\":1}").ok(), Some(expected_id(b"{\"a\":1}", b"x")));
}

#[test]
fn hex_ids() {
    assert!(is_hex_string("0123456789abcdefABCDEF"));
    assert!(is_hex_string(""));
    assert!(!is_hex_string("12g4"));
    assert!(!is_hex_string("../etc"));
    assert!(check_module_id("deadBEEF").is_ok());
    assert_eq!(check_module_id("x").err(), Some(RegistryError::InvalidModuleId));
}

#[test]
fn cache_plan() {
    assert!(matches!(plan_cache(Some(1234)), CachePlan::Reuse { compiled_size: 1234 }));
    assert!(matches!(plan_cache(None), CachePlan::Compile));
}

#[test]
fn pending_table_park_and_take() {
    let mut t: PendingTable<u32> = PendingTable::new();
    assert_eq!(t.len(), 0);
    t.park("r1".to_string(), 10);
    t.park("r2".to_string(), 20);
    assert_eq!(t.len(), 2);
    t.park("r1".to_string(), 11);
    assert_eq!(t.len(), 2);
    assert!(t.contains(&"r2".to_string()));
    assert_eq!(t.take(&"r1".to_string()), Some(11));
    assert_eq!(t.take(&"r1".to_string()), None);
    assert!(t.contains(&"r2".to_string()));
    assert_eq!(t.take(&"r2".to_string()), Some(20));
    assert_eq!(t.len(), 0);
}

#[test]
fn prompt_token_arrays() {
    assert_eq!(prompt_tokens(&vec![Some(1), Some(2), Some(3)]), Ok(vec![1, 2, 3]));
    assert_eq!(prompt_tokens(&vec![]), Ok(vec![]));
    assert_eq!(
        prompt_tokens(&vec![Some(1), None, Some(1 << 40)]),
        Err(PromptError::NotANumber { index: 1 })
    );
    assert_eq!(
        prompt_tokens(&vec![Some(1), Some(1 << 40), None]),
        Err(PromptError::TooLarge { index: 1 })
    );
}

#[test]
fn many_distinct_requests_all_parked() {
    let mut t: PendingTable<u32> = PendingTable::new();
    t.park("keep".to_string(), 1);
    for k in 0..10u32 {
        t.park(format!("r{k}"), 100 + k);
    }
    assert_eq!(t.len(), 11);
    for k in 0..10u32 {
        assert_eq!(t.take(&format!("r{k}")), Some(100 + k));
    }
    assert_eq!(t.take(&"keep".to_string()), Some(1));
}
