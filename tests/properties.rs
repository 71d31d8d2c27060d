use wasm_call_graph::{
    apply_implicit_calls, build_call_graph, build_env_symbol_map, enumerate_call_chains, generate_call_paths,
    matches_path_pattern_tree, output_line, parse_bool_arg, parse_implicit_calls, parse_path_pattern,
    parse_wasm_module, run_failed, show_filename, CallNode, DecodeError, EnvConfig, EnvFunction, EnvModule,
    ModuleFacts, NameTable,
};

fn module(source: &str) -> Vec<u8> {
    wat::parse_str(source).expect("Failed to parse WAT")
}

fn strings(items: &[&str]) -> Vec<String> {
    items.iter().map(|s| s.to_string()).collect()
}

fn diamond() -> Vec<u8> {
    module(
        r#"
        (module
            (func $a (call $b) (call $c))
            (func $b (call $d))
            (func $c (call $d))
            (func $d)
        )
        "#,
    )
}

fn sample_tree() -> CallNode {
    let mut x = CallNode::new("X".to_string());
    let mut a = CallNode::new("A".to_string());
    a.children.push(CallNode::new("C".to_string()));
    a.children.push(CallNode::new("D".to_string()));
    x.children.push(a);
    x.children.push(CallNode::new("B".to_string()));
    x
}

#[test]
fn acyclic_chain_count_equals_downward_paths() {
    let data = parse_wasm_module(&diamond(), None).unwrap();
    // a, a-b, a-b-d, a-c, a-c-d
    let chains = enumerate_call_chains(&data, &strings(&["a"]), &[], false);
    assert_eq!(chains.len(), 5);
}

#[test]
fn duplicate_call_sites_count_separately() {
    let wasm = module(
        r#"
        (module
            (func $a (call $b) (call $b))
            (func $b)
        )
        "#,
    );
    let data = parse_wasm_module(&wasm, None).unwrap();
    let chains = enumerate_call_chains(&data, &strings(&["a"]), &[], false);
    assert_eq!(chains, strings(&["a", "a,b", "a,b"]));
    let paths = generate_call_paths(&data, &strings(&["a"]), None);
    assert_eq!(paths, strings(&["a{b,b}"]));
}

#[test]
fn cyclic_chains_never_repeat_a_function() {
    let wasm = module(
        r#"
        (module
            (func $a (call $b) (call $c) (call $a))
            (func $b (call $c) (call $a))
            (func $c (call $a) (call $b) (call $c))
        )
        "#,
    );
    let data = parse_wasm_module(&wasm, None).unwrap();
    let chains = enumerate_call_chains(&data, &[], &[], false);
    // from each of 3 starts: itself, 2 of length 2, 2 of length 3
    assert_eq!(chains.len(), 15);
    for chain in &chains {
        let names: Vec<&str> = chain.split(',').collect();
        for i in 0..names.len() {
            for j in (i + 1)..names.len() {
                assert_ne!(names[i], names[j], "{}", chain);
            }
        }
    }
}

#[test]
fn self_cycle_unrolls_twice() {
    let wasm = module(
        r#"
        (module
            (func $f (call $f))
        )
        "#,
    );
    let data = parse_wasm_module(&wasm, None).unwrap();
    assert_eq!(generate_call_paths(&data, &[], None), strings(&["f{f{f}}"]));
}

#[test]
fn diamond_chains_and_summary() {
    let data = parse_wasm_module(&diamond(), None).unwrap();
    let chains = enumerate_call_chains(&data, &strings(&["a"]), &strings(&["d"]), false);
    assert_eq!(chains, strings(&["a,b,d", "a,c,d"]));
    let paths = generate_call_paths(&data, &strings(&["a"]), None);
    assert_eq!(paths, strings(&["a{b{d},c{d}}"]));
}

#[test]
fn pruning_keeps_only_the_witness() {
    let x = sample_tree();
    let pattern = parse_path_pattern("X..C..B");
    assert!(matches_path_pattern_tree(&x, &pattern));
    assert_eq!(x.filter_by_pattern(&pattern).unwrap().to_string(), "X{A{C},B}");
    let out_of_order = parse_path_pattern("X..B..D");
    assert!(!matches_path_pattern_tree(&x, &out_of_order));
}

#[test]
fn out_of_order_pattern_yields_nothing_for_its_start() {
    let wasm = module(
        r#"
        (module
            (func $X (call $A) (call $B))
            (func $A (call $C) (call $D))
            (func $B)
            (func $C)
            (func $D)
        )
        "#,
    );
    let data = parse_wasm_module(&wasm, None).unwrap();
    let pattern = parse_path_pattern("X..B..D");
    assert!(generate_call_paths(&data, &strings(&["X"]), Some(&pattern)).is_empty());
}

#[test]
fn first_alternative_in_preorder_wins() {
    let x = sample_tree();
    // D is listed first, but C comes first in pre-order.
    let pattern = parse_path_pattern("X..D|C..B");
    assert_eq!(x.filter_by_pattern(&pattern).unwrap().to_string(), "X{A{C},B}");
    let either = parse_path_pattern("D|C");
    assert!(matches_path_pattern_tree(&x, &either));
    assert_eq!(x.filter_by_pattern(&either).unwrap().to_string(), "X{A{C}}");
    let neither = parse_path_pattern("Q|R");
    assert!(!matches_path_pattern_tree(&x, &neither));
}

#[test]
fn empty_pattern_matches_but_prunes_to_nothing() {
    let x = sample_tree();
    assert!(matches_path_pattern_tree(&x, &[]));
    assert!(x.filter_by_pattern(&[]).is_none());
    let data = parse_wasm_module(&diamond(), None).unwrap();
    let empty: Vec<Vec<String>> = Vec::new();
    assert!(generate_call_paths(&data, &[], Some(&empty)).is_empty());
}

#[test]
fn leaves_only_without_imports_is_empty() {
    let wasm = module(
        r#"
        (module
            (func $a (export "a") (call $b))
            (func $b (export "b"))
        )
        "#,
    );
    let data = parse_wasm_module(&wasm, None).unwrap();
    assert!(enumerate_call_chains(&data, &[], &[], true).is_empty());
    assert!(enumerate_call_chains(&data, &strings(&["a"]), &strings(&["b"]), true).is_empty());
}

#[test]
fn imports_only_appear_as_destinations() {
    let wasm = module(
        r#"
        (module
            (import "env" "ext" (func $ext))
            (func $a (call $ext))
        )
        "#,
    );
    let data = parse_wasm_module(&wasm, None).unwrap();
    let chains = enumerate_call_chains(&data, &[], &[], false);
    assert_eq!(chains, strings(&["a", "a,ext"]));
    let paths = generate_call_paths(&data, &[], None);
    assert_eq!(paths, strings(&["a{ext}"]));
}

#[test]
fn output_is_sorted() {
    let wasm = module(
        r#"
        (module
            (func $zeta (call $alpha))
            (func $alpha)
            (func $Mid)
        )
        "#,
    );
    let data = parse_wasm_module(&wasm, None).unwrap();
    let chains = enumerate_call_chains(&data, &[], &[], false);
    assert_eq!(chains, strings(&["Mid", "alpha", "zeta", "zeta,alpha"]));
    let paths = generate_call_paths(&data, &[], None);
    assert_eq!(paths, strings(&["Mid", "alpha", "zeta{alpha}"]));
}

#[test]
fn empty_module_has_no_chains() {
    let data = parse_wasm_module(&module("(module)"), None).unwrap();
    assert!(enumerate_call_chains(&data, &[], &[], false).is_empty());
    assert!(generate_call_paths(&data, &[], None).is_empty());
}

#[test]
fn unnamed_functions_get_default_names() {
    let wasm = module(
        r#"
        (module
            (import "env" "host" (func))
            (func (call 0) (call 2))
            (func)
        )
        "#,
    );
    let data = parse_wasm_module(&wasm, None).unwrap();
    assert_eq!(data.function_names, strings(&["func_0", "func_1", "func_2"]));
    let chains = enumerate_call_chains(&data, &[], &[], false);
    assert_eq!(chains, strings(&["func_1", "func_1,func_0", "func_1,func_2", "func_2"]));
}

#[test]
fn debug_names_win_over_export_names() {
    let wasm = module(
        r#"
        (module
            (func $inner (export "outer"))
            (func (export "only_export"))
        )
        "#,
    );
    let data = parse_wasm_module(&wasm, None).unwrap();
    assert_eq!(data.function_names, strings(&["inner", "only_export"]));
    assert!(data.exported_functions.contains(&0));
    assert!(data.exported_functions.contains(&1));
}

#[test]
fn translated_import_names_win() {
    let wasm = module(
        r#"
        (module
            (import "x" "_" (func $short))
            (import "y" "z" (func $other))
            (func $main (call $short) (call $other))
        )
        "#,
    );
    let mut env = NameTable::new();
    env.insert("x._".to_string(), "long_name".to_string());
    let data = parse_wasm_module(&wasm, Some(&env)).unwrap();
    assert_eq!(data.function_names, strings(&["long_name", "other", "main"]));
}

#[test]
fn graph_from_facts_follows_name_precedence() {
    let facts = ModuleFacts {
        imports: vec![("m".to_string(), "f".to_string()), ("m".to_string(), "g".to_string())],
        exports: vec![("first".to_string(), 2), ("second".to_string(), 2), ("imp".to_string(), 0)],
        debug_names: vec![(3, "dbg".to_string()), (0, "dbg0".to_string())],
        bodies: vec![vec![3, 0], vec![]],
    };
    let mut env = NameTable::new();
    env.insert("m.f".to_string(), "translated".to_string());
    let data = build_call_graph(&facts, Some(&env));
    assert_eq!(data.function_names, strings(&["translated", "func_1", "second", "dbg"]));
    assert_eq!(data.all_function_indices, vec![2, 3]);
    assert_eq!(data.call_graph, vec![vec![], vec![], vec![3, 0], vec![]]);
    assert!(data.imported_functions.contains(&0) && data.imported_functions.contains(&1));
    assert!(!data.imported_functions.contains(&2));
    assert!(data.exported_functions.contains(&2) && data.exported_functions.contains(&0));
}

#[test]
fn malformed_module_is_rejected() {
    let result = parse_wasm_module(&[0x00, 0x61, 0x73, 0x6d, 0x09, 0x00, 0x00, 0x00], None);
    match result {
        Err(DecodeError::Malformed(message)) => assert!(!message.is_empty()),
        _ => panic!("expected a decode error"),
    }
    assert!(matches!(parse_wasm_module(b"not wasm", None), Err(DecodeError::Malformed(_))));
}

#[test]
fn implicit_call_error_names_the_argument() {
    let args = strings(&["a:b", "broken", "c"]);
    let err = parse_implicit_calls(&args).err().unwrap();
    assert_eq!(err, "Invalid implicit-call format 'broken', expected IMPORT:EXPORT");
}

#[test]
fn implicit_call_splits_at_first_colon_and_last_binding_wins() {
    let args = strings(&["host:cb:extra", "host:cb2", "other:x"]);
    let map = parse_implicit_calls(&args).unwrap();
    assert_eq!(map.len(), 2);
    assert_eq!(map.get("host"), Some(&"cb2".to_string()));
    assert_eq!(map.get("other"), Some(&"x".to_string()));
    let single = parse_implicit_calls(&strings(&["host:cb:extra"])).unwrap();
    assert_eq!(single.get("host"), Some(&"cb:extra".to_string()));
    assert_eq!(single.get("cb"), None);
}

#[test]
fn implicit_calls_are_not_idempotent() {
    let wasm = module(
        r#"
        (module
            (import "env" "host" (func $host))
            (func $main (call $host))
            (func $cb)
        )
        "#,
    );
    let mut data = parse_wasm_module(&wasm, None).unwrap();
    let calls = parse_implicit_calls(&strings(&["host:cb", "missing:cb"])).unwrap();
    apply_implicit_calls(&mut data, &calls);
    apply_implicit_calls(&mut data, &calls);
    assert_eq!(data.call_graph[0], vec![2, 2]);
    assert_eq!(generate_call_paths(&data, &strings(&["main"]), None), strings(&["main{host{cb,cb}}"]));
}

#[test]
fn boolean_flags_ignore_case() {
    assert_eq!(parse_bool_arg("TRUE"), Ok(true));
    assert_eq!(parse_bool_arg("Yes"), Ok(true));
    assert_eq!(parse_bool_arg("1"), Ok(true));
    assert_eq!(parse_bool_arg("No"), Ok(false));
    assert_eq!(parse_bool_arg("0"), Ok(false));
    assert_eq!(parse_bool_arg("FALSE"), Ok(false));
    assert_eq!(parse_bool_arg("Maybe"), Err("Invalid boolean value: Maybe".to_string()));
}

#[test]
fn path_pattern_syntax() {
    assert_eq!(
        parse_path_pattern("X..C|D..B"),
        vec![strings(&["X"]), strings(&["C", "D"]), strings(&["B"])]
    );
    assert_eq!(parse_path_pattern("a...b"), vec![strings(&["a"]), strings(&[".b"])]);
    assert_eq!(parse_path_pattern("solo"), vec![strings(&["solo"])]);
    assert_eq!(parse_path_pattern("a..|b"), vec![strings(&["a"]), strings(&["", "b"])]);
}

#[test]
fn output_prefix_and_exit_status() {
    assert!(!show_filename(None, 1));
    assert!(show_filename(None, 2));
    assert!(show_filename(Some(true), 1));
    assert!(!show_filename(Some(false), 3));
    assert_eq!(output_line("m.wasm", true, "a,b"), "m.wasm:a,b");
    assert_eq!(output_line("m.wasm", false, "a,b"), "a,b");
    assert!(run_failed(1, 0, false, 0));
    assert!(run_failed(0, 0, true, 0));
    assert!(!run_failed(0, 0, false, 0));
    assert!(!run_failed(1, 1, true, 3));
}

#[test]
fn env_symbol_table_keys_module_and_function() {
    let config = EnvConfig {
        modules: vec![
            EnvModule {
                export: "x".to_string(),
                functions: vec![
                    EnvFunction { export: "_".to_string(), name: "log".to_string() },
                    EnvFunction { export: "0".to_string(), name: "first".to_string() },
                ],
            },
            EnvModule {
                export: "x".to_string(),
                functions: vec![EnvFunction { export: "0".to_string(), name: "second".to_string() }],
            },
        ],
    };
    let table = build_env_symbol_map(&config);
    assert_eq!(table.len(), 2);
    assert_eq!(table.get("x._"), Some(&"log".to_string()));
    assert_eq!(table.get("x.0"), Some(&"second".to_string()));
    assert_eq!(table.get("x"), None);
}

#[test]
fn unrolling_bounds_longer_cycles() {
    let wasm = module(
        r#"
        (module
            (func $a (call $b) (call $a))
            (func $b (call $a))
        )
        "#,
    );
    let data = parse_wasm_module(&wasm, None).unwrap();
    let paths = generate_call_paths(&data, &strings(&["a"]), None);
    assert_eq!(paths, strings(&["a{b{a{b{a},a}},a{b{a},a}}"]));
}

#[test]
fn cloned_tree_renders_the_same() {
    let x = sample_tree();
    let y = x.clone();
    assert_eq!(y.to_string(), "X{A{C,D},B}");
    assert_eq!(y.names_in_order(), x.names_in_order());
}

#[test]
fn truncated_module_is_rejected() {
    let wasm = module(
        r#"
        (module
            (import "env" "host" (func))
            (func (call 0))
        )
        "#,
    );
    let cut = &wasm[..wasm.len() - 3];
    assert!(matches!(parse_wasm_module(cut, None), Err(DecodeError::Malformed(_))));
}
