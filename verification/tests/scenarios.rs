use emoji_compress::brackets::trim_bracket;
use emoji_compress::compress::compress;
use emoji_compress::grow::{grow, grow_backwards, grow_forwards};

#[test]
fn test_trim() {
    let s = r#"_runtime::generic::Header<u32, BlakeTwo256>, OpaqueExtrinsic>"#;
    assert_eq!(trim_bracket(s), "u32, BlakeTwo256")
}

#[test]
fn test_trim_leading() {
    let s = r#">>>_runtime::generic::Header<u32, BlakeTwo256>, OpaqueExtrinsic>"#;
    assert_eq!(trim_bracket(s), "u32, BlakeTwo256")
}

#[test]
fn finds_biggest_closure() {
    let s = r#"<Backend<sp_runtime> Block<BiggggOpaqueExtrinsic<small>>"#;
    assert_eq!(trim_bracket(s), "BiggggOpaqueExtrinsic<small>")
}

#[test]
fn grpw_it_forwards() {
    //hit end
    assert_eq!(grow_forwards(2, &[0, 3], b"abcabc"), Some((2, vec![0, 3])));

    assert_eq!(grow_forwards(2, &[0, 3], b"abcabcX"), Some((3, vec![0, 3])));

    assert_eq!(
        grow_forwards(2, &[0, 3, 6], b"abcabcabcX"),
        Some((3, vec![0, 3, 6]))
    );
}

#[test]
fn grpw_it_backwards() {
    assert_eq!(
        grow_backwards(1, &[3, 6], b" abcabc"),
        Some((3, vec![1, 4]))
    );
}

#[test]
fn grow_it() {
    assert_eq!(grow(1, &[2, 6], b" abc abc "), Some((3, vec![1, 5])));
}

#[test]
fn test_real() {
    //     // error[E0277]: the trait bound `RuntimeApiImpl<sp_runtime::generic::Block<sp_runtime::generic::Header<u32, BlakeTwo256>, OpaqueExtrinsic>, sc_service::client::Client<substrate_test_client::Backend<sp_runtime::generic::Block<sp_runtime::generic::Header<u32, BlakeTwo256>, OpaqueExtrinsic>>, LocalCallExecutor<sp_runtime::generic::Block<sp_runtime::generic::Header<u32, BlakeTwo256>, OpaqueExtrinsic>, substrate_test_client::Backend<sp_runtime::generic::Block<sp_runtime::generic::Header<u32, BlakeTwo256>, OpaqueExtrinsic>>, NativeElseWasmExecutor<RuntimeExecutor>>, sp_runtime::generic::Block<sp_runtime::generic::Header<u32, BlakeTwo256>, OpaqueExtrinsic>, cumulus_test_runtime::RuntimeApi>>: GrandpaApi<sp_runtime::generic::Block<sp_runtime::generic::Header<u32, BlakeTwo256>, OpaqueExtrinsic>>` is not satisfied
    //   --> test/service/src/lib.rs:175:16
    //     |
    // 175 |         import_queue(boxi, &task_manager.spawn_essential_handle(), None);
    //     |                      ^^^^ the trait `GrandpaApi<sp_runtime::generic::Block<sp_runtime::generic::Header<u32, BlakeTwo256>, OpaqueExtrinsic>>` is not implemented for `RuntimeApiImpl<sp_runtime::generic::Block<sp_runtime::generic::Header<u32, BlakeTwo256>, OpaqueExtrinsic>, sc_service::client::Client<substrate_test_client::Backend<sp_runtime::generic::Block<sp_runtime::generic::Header<u32, BlakeTwo256>, OpaqueExtrinsic>>, LocalCallExecutor<sp_runtime::generic::Block<sp_runtime::generic::Header<u32, BlakeTwo256>, OpaqueExtrinsic>, substrate_test_client::Backend<sp_runtime::generic::Block<sp_runtime::generic::Header<u32, BlakeTwo256>, OpaqueExtrinsic>>, NativeElseWasmExecutor<RuntimeExecutor>>, sp_runtime::generic::Block<sp_runtime::generic::Header<u32, BlakeTwo256>, OpaqueExtrinsic>, cumulus_test_runtime::RuntimeApi>>`
    //     |
    //     = note: required because of the requirements on the impl of `BlockImport<sp_runtime::generic::Block<sp_runtime::generic::Header<u32, BlakeTwo256>, OpaqueExtrinsic>>` for `GrandpaBlockImport<substrate_test_client::Backend<sp_runtime::generic::Block<sp_runtime::generic::Header<u32, BlakeTwo256>, OpaqueExtrinsic>>, sp_runtime::generic::Block<sp_runtime::generic::Header<u32, BlakeTwo256>, OpaqueExtrinsic>, sc_service::client::Client<substrate_test_client::Backend<sp_runtime::generic::Block<sp_runtime::generic::Header<u32, BlakeTwo256>, OpaqueExtrinsic>>, LocalCallExecutor<sp_runtime::generic::Block<sp_runtime::generic::Header<u32, BlakeTwo256>, OpaqueExtrinsic>, substrate_test_client::Backend<sp_runtime::generic::Block<sp_runtime::generic::Header<u32, BlakeTwo256>, OpaqueExtrinsic>>, NativeElseWasmExecutor<RuntimeExecutor>>, sp_runtime::generic::Block<sp_runtime::generic::Header<u32, BlakeTwo256>, OpaqueExtrinsic>, cumulus_test_runtime::RuntimeApi>, sc_consensus::LongestChain<substrate_test_client::Backend<sp_runtime::generic::Block<sp_runtime::generic::Header<u32, BlakeTwo256>, OpaqueExtrinsic>>, sp_runtime::generic::Block<sp_runtime::generic::Header<u32, BlakeTwo256>, OpaqueExtrinsic>>>`
    //     = note: 1 redundant requirements hidden
    //     = note: required because of the requirements on the impl of `BlockImport<sp_runtime::generic::Block<sp_runtime::generic::Header<u32, BlakeTwo256>, OpaqueExtrinsic>>` for `BabeBlockImport<sp_runtime::generic::Block<sp_runtime::generic::Header<u32, BlakeTwo256>, OpaqueExtrinsic>, sc_service::client::Client<substrate_test_client::Backend<sp_runtime::generic::Block<sp_runtime::generic::Header<u32, BlakeTwo256>, OpaqueExtrinsic>>, LocalCallExecutor<sp_runtime::generic::Block<sp_runtime::generic::Header<u32, BlakeTwo256>, OpaqueExtrinsic>, substrate_test_client::Backend<sp_runtime::generic::Block<sp_runtime::generic::Header<u32, BlakeTwo256>, OpaqueExtrinsic>>, NativeElseWasmExecutor<RuntimeExecutor>>, sp_runtime::generic::Block<sp_runtime::generic::Header<u32, BlakeTwo256>, OpaqueExtrinsic>, cumulus_test_runtime::RuntimeApi>, GrandpaBlockImport<substrate_test_client::Backend<sp_runtime::generic::Block<sp_runtime::generic::Header<u32, BlakeTwo256>, OpaqueExtrinsic>>, sp_runtime::generic::Block<sp_runtime::generic::Header<u32, BlakeTwo256>, OpaqueExtrinsic>, sc_service::client::Client<substrate_test_client::Backend<sp_runtime::generic::Block<sp_runtime::generic::Header<u32, BlakeTwo256>, OpaqueExtrinsic>>, LocalCallExecutor<sp_runtime::generic::Block<sp_runtime::generic::Header<u32, BlakeTwo256>, OpaqueExtrinsic>, substrate_test_client::Backend<sp_runtime::generic::Block<sp_runtime::generic::Header<u32, BlakeTwo256>, OpaqueExtrinsic>>, NativeElseWasmExecutor<RuntimeExecutor>>, sp_runtime::generic::Block<sp_runtime::generic::Header<u32, BlakeTwo256>, OpaqueExtrinsic>, cumulus_test_runtime::RuntimeApi>, sc_consensus::LongestChain<substrate_test_client::Backend<sp_runtime::generic::Block<sp_runtime::generic::Header<u32, BlakeTwo256>, OpaqueExtrinsic>>, sp_runtime::generic::Block<sp_runtime::generic::Header<u32, BlakeTwo256>, OpaqueExtrinsic>>>>`
    //     = note: required for the cast to the object type `dyn BlockImport<sp_runtime::generic::Block<sp_runtime::generic::Header<u32, BlakeTwo256>, OpaqueExtrinsic>, Error = substrate_test_client::sp_consensus::Error, Transaction = memory_db::MemoryDB<BlakeTwo256, memory_db::PrefixedKey<BlakeTwo256>, Vec<u8>, memory_db::malloc_size_of::NoopTracker<Vec<u8>>>> + Sync + std::marker::Send`

    let a = r#"
    Checking cumulus-test-service v0.1.0 (/home/gilescope/git/substrate3/test/service)
warning: unused imports: `BabeConsensusDataProvider`, `EngineCommand`, `ManualSealApi`, `ManualSealParams`, `ManualSeal`, `SlotTimestampProvider`, `run_manual_seal`
  --> test/service/src/lib.rs:38:20
   |
38 |     consensus::babe::{BabeConsensusDataProvider, SlotTimestampProvider},
   |                       ^^^^^^^^^^^^^^^^^^^^^^^^^  ^^^^^^^^^^^^^^^^^^^^^
39 |     import_queue,
40 |     rpc::{ManualSeal, ManualSealApi},
   |           ^^^^^^^^^^  ^^^^^^^^^^^^^
41 |     run_manual_seal, EngineCommand, ManualSealParams,
   |     ^^^^^^^^^^^^^^^  ^^^^^^^^^^^^^  ^^^^^^^^^^^^^^^^
   |
   = note: `#[warn(unused_imports)]` on by default

warning: unused import: `sc_client_api::ExecutorProvider`
  --> test/service/src/lib.rs:68:5
   |
68 | use sc_client_api::ExecutorProvider;
   |     ^^^^^^^^^^^^^^^^^^^^^^^^^^^^^^^

error[E0277]: the trait bound `RuntimeApiImpl<sp_runtime::generic::Block<sp_runtime::generic::Header<u32, BlakeTwo256>, OpaqueExtrinsic>, sc_service::client::Client<substrate_test_client::Backend<sp_runtime::generic::Block<sp_runtime::generic::Header<u32, BlakeTwo256>, OpaqueExtrinsic>>, LocalCallExecutor<sp_runtime::generic::Block<sp_runtime::generic::Header<u32, BlakeTwo256>, OpaqueExtrinsic>, substrate_test_client::Backend<sp_runtime::generic::Block<sp_runtime::generic::Header<u32, BlakeTwo256>, OpaqueExtrinsic>>, NativeElseWasmExecutor<RuntimeExecutor>>, sp_runtime::generic::Block<sp_runtime::generic::Header<u32, BlakeTwo256>, OpaqueExtrinsic>, cumulus_test_runtime::RuntimeApi>>: GrandpaApi<sp_runtime::generic::Block<sp_runtime::generic::Header<u32, BlakeTwo256>, OpaqueExtrinsic>>` is not satisfied
   --> test/service/src/lib.rs:175:16
    |
175 |         import_queue(boxi, &task_manager.spawn_essential_handle(), None);
    |                      ^^^^ the trait `GrandpaApi<sp_runtime::generic::Block<sp_runtime::generic::Header<u32, BlakeTwo256>, OpaqueExtrinsic>>` is not implemented for `RuntimeApiImpl<sp_runtime::generic::Block<sp_runtime::generic::Header<u32, BlakeTwo256>, OpaqueExtrinsic>, sc_service::client::Client<substrate_test_client::Backend<sp_runtime::generic::Block<sp_runtime::generic::Header<u32, BlakeTwo256>, OpaqueExtrinsic>>, LocalCallExecutor<sp_runtime::generic::Block<sp_runtime::generic::Header<u32, BlakeTwo256>, OpaqueExtrinsic>, substrate_test_client::Backend<sp_runtime::generic::Block<sp_runtime::generic::Header<u32, BlakeTwo256>, OpaqueExtrinsic>>, NativeElseWasmExecutor<RuntimeExecutor>>, sp_runtime::generic::Block<sp_runtime::generic::Header<u32, BlakeTwo256>, OpaqueExtrinsic>, cumulus_test_runtime::RuntimeApi>>`
    |
    = note: required because of the requirements on the impl of `BlockImport<sp_runtime::generic::Block<sp_runtime::generic::Header<u32, BlakeTwo256>, OpaqueExtrinsic>>` for `GrandpaBlockImport<substrate_test_client::Backend<sp_runtime::generic::Block<sp_runtime::generic::Header<u32, BlakeTwo256>, OpaqueExtrinsic>>, sp_runtime::generic::Block<sp_runtime::generic::Header<u32, BlakeTwo256>, OpaqueExtrinsic>, sc_service::client::Client<substrate_test_client::Backend<sp_runtime::generic::Block<sp_runtime::generic::Header<u32, BlakeTwo256>, OpaqueExtrinsic>>, LocalCallExecutor<sp_runtime::generic::Block<sp_runtime::generic::Header<u32, BlakeTwo256>, OpaqueExtrinsic>, substrate_test_client::Backend<sp_runtime::generic::Block<sp_runtime::generic::Header<u32, BlakeTwo256>, OpaqueExtrinsic>>, NativeElseWasmExecutor<RuntimeExecutor>>, sp_runtime::generic::Block<sp_runtime::generic::Header<u32, BlakeTwo256>, OpaqueExtrinsic>, cumulus_test_runtime::RuntimeApi>, sc_consensus::LongestChain<substrate_test_client::Backend<sp_runtime::generic::Block<sp_runtime::generic::Header<u32, BlakeTwo256>, OpaqueExtrinsic>>, sp_runtime::generic::Block<sp_runtime::generic::Header<u32, BlakeTwo256>, OpaqueExtrinsic>>>`
    = note: 1 redundant requirements hidden
    = note: required because of the requirements on the impl of `BlockImport<sp_runtime::generic::Block<sp_runtime::generic::Header<u32, BlakeTwo256>, OpaqueExtrinsic>>` for `BabeBlockImport<sp_runtime::generic::Block<sp_runtime::generic::Header<u32, BlakeTwo256>, OpaqueExtrinsic>, sc_service::client::Client<substrate_test_client::Backend<sp_runtime::generic::Block<sp_runtime::generic::Header<u32, BlakeTwo256>, OpaqueExtrinsic>>, LocalCallExecutor<sp_runtime::generic::Block<sp_runtime::generic::Header<u32, BlakeTwo256>, OpaqueExtrinsic>, substrate_test_client::Backend<sp_runtime::generic::Block<sp_runtime::generic::Header<u32, BlakeTwo256>, OpaqueExtrinsic>>, NativeElseWasmExecutor<RuntimeExecutor>>, sp_runtime::generic::Block<sp_runtime::generic::Header<u32, BlakeTwo256>, OpaqueExtrinsic>, cumulus_test_runtime::RuntimeApi>, GrandpaBlockImport<substrate_test_client::Backend<sp_runtime::generic::Block<sp_runtime::generic::Header<u32, BlakeTwo256>, OpaqueExtrinsic>>, sp_runtime::generic::Block<sp_runtime::generic::Header<u32, BlakeTwo256>, OpaqueExtrinsic>, sc_service::client::Client<substrate_test_client::Backend<sp_runtime::generic::Block<sp_runtime::generic::Header<u32, BlakeTwo256>, OpaqueExtrinsic>>, LocalCallExecutor<sp_runtime::generic::Block<sp_runtime::generic::Header<u32, BlakeTwo256>, OpaqueExtrinsic>, substrate_test_client::Backend<sp_runtime::generic::Block<sp_runtime::generic::Header<u32, BlakeTwo256>, OpaqueExtrinsic>>, NativeElseWasmExecutor<RuntimeExecutor>>, sp_runtime::generic::Block<sp_runtime::generic::Header<u32, BlakeTwo256>, OpaqueExtrinsic>, cumulus_test_runtime::RuntimeApi>, sc_consensus::LongestChain<substrate_test_client::Backend<sp_runtime::generic::Block<sp_runtime::generic::Header<u32, BlakeTwo256>, OpaqueExtrinsic>>, sp_runtime::generic::Block<sp_runtime::generic::Header<u32, BlakeTwo256>, OpaqueExtrinsic>>>>`
    = note: required for the cast to the object type `dyn BlockImport<sp_runtime::generic::Block<sp_runtime::generic::Header<u32, BlakeTwo256>, OpaqueExtrinsic>, Error = substrate_test_client::sp_consensus::Error, Transaction = memory_db::MemoryDB<BlakeTwo256, memory_db::PrefixedKey<BlakeTwo256>, Vec<u8>, memory_db::malloc_size_of::NoopTracker<Vec<u8>>>> + Sync + std::marker::Send`

warning: unused import: `sp_api::BlockT`
  --> test/service/src/lib.rs:55:5
   |
55 | use sp_api::BlockT;
   |     ^^^^^^^^^^^^^^

For more information about this error, try `rustc --explain E0277`.    
    // "#;

    //    let (b, c) = a.split_at(a.len() / 2);

    //let it = MatchIterator::new(b.as_bytes(), c.as_bytes(), AlgoSpec::HashMatch(10));
    //for m in it {
    //    println!("{:}", &a[m.first_pos..m.first_end()]);
    //}

    println!("{}", compress(a.to_string()));

    // distil(
    //     r#"
    // error[E0277]: the trait bound `RuntimeApiImpl<sp_runtime::generic::Block<sp_runtime::generic::Header<u32, BlakeTwo256>, OpaqueExtrinsic>, sc_service::client::Client<substrate_test_client::Backend<sp_runtime::generic::Block<sp_runtime::generic::Header<u32, BlakeTwo256>, OpaqueExtrinsic>>, LocalCallExecutor<sp_runtime::generic::Block<sp_runtime::generic::Header<u32, BlakeTwo256>, OpaqueExtrinsic>, substrate_test_client::Backend<sp_runtime::generic::Block<sp_runtime::generic::Header<u32, BlakeTwo256>, OpaqueExtrinsic>>, NativeElseWasmExecutor<RuntimeExecutor>>, sp_runtime::generic::Block<sp_runtime::generic::Header<u32, BlakeTwo256>, OpaqueExtrinsic>, cumulus_test_runtime::RuntimeApi>>: GrandpaApi<sp_runtime::generic::Block<sp_runtime::generic::Header<u32, BlakeTwo256>, OpaqueExtrinsic>>` is not satisfied

    // "#,
    //     "💖😂🚀😜🚨",
    // );
}
