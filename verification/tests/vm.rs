use hope::vm::{
    check_memory_pages, has_function_export, heartbeat_value, validate_imports, ExportDecl, HopeVM, ImportDecl, VmError,
};
use wasmer::{wat2wasm, Value};

fn wasm_with_timer_import() -> Vec<u8> {
    wat2wasm(
        br#"
            (module
                (import "wasi_snapshot_preview1" "clock_time_get"
                    (func $clock (param i32 i64 i32) (result i32)))
                (func (export "tick") (result i32)
                    (i32.const 0)
                    (i64.const 0)
                    (i32.const 0)
                    (call $clock)
                )
            )
        "#,
    )
    .expect("WAT parse")
    .to_vec()
}

fn wasm_simple_add() -> Vec<u8> {
    wat2wasm(
        br#"
            (module
                (func (export "add") (param i32 i32) (result i32)
                    local.get 0
                    local.get 1
                    i32.add
                )
            )
        "#,
    )
    .expect("WAT parse")
    .to_vec()
}

#[test]
fn timer_import_blocked() {
    let mut vm = HopeVM::new();
    let result = vm.execute(&wasm_with_timer_import(), "tick", &[]);
    assert!(result.is_err());
    let msg = result.unwrap_err().message();
    assert!(msg.contains("timer") || msg.contains("clock"), "Várható timer blokk üzenet: {}", msg);
}

#[test]
fn clean_wasm_executes() {
    let mut vm = HopeVM::new();
    let result = vm.execute(&wasm_simple_add(), "add", &[Value::I32(3), Value::I32(4)]);
    assert!(result.is_ok());
    assert_eq!(result.unwrap()[0], Value::I32(7));
}

fn decl(module: &str, name: &str, is_memory: bool) -> ImportDecl {
    ImportDecl { module: module.to_string(), name: name.to_string(), is_memory }
}

#[test]
fn first_offending_import_decides() {
    assert!(validate_imports(&vec![decl("env", "log", false)]).is_ok());
    match validate_imports(&vec![decl("env", "log", false), decl("env", "mem", true), decl("env", "emscripten_get_now", false)]) {
        Err(VmError::MemoryImport(n)) => assert_eq!(n, "mem"),
        other => panic!("unexpected {:?}", other),
    }
    match validate_imports(&vec![decl("wasi_unstable", "clock_res_get", false)]) {
        Err(e) => assert_eq!(
            e.message(),
            "HopeVM: WASI timer import megtagadva (wasi_unstable.clock_res_get) — side-channel védelem"
        ),
        Ok(()) => panic!("timer import accepted"),
    }
    // Same name from another module is not blocked.
    assert!(validate_imports(&vec![decl("env", "clock_time_get", false)]).is_ok());
}

#[test]
fn memory_page_limit() {
    assert!(check_memory_pages(None).is_ok());
    assert!(check_memory_pages(Some(256)).is_ok());
    match check_memory_pages(Some(300)) {
        Err(e) => assert_eq!(e.message(), "HopeVM: memória limit túllépve (300 pages > 256 max = 16MB)"),
        Ok(()) => panic!("limit not enforced"),
    }
}

#[test]
fn heartbeat_reads_first_i32() {
    assert_eq!(heartbeat_value(Some(5)), 5);
    assert_eq!(heartbeat_value(Some(-1)), u32::MAX);
    assert_eq!(heartbeat_value(None), 0);
    let mut vm = HopeVM::new();
    let wasm = wat2wasm(br#"(module (func (export "tick") (result i32) (i32.const 42)))"#).unwrap().to_vec();
    assert_eq!(vm.run_heartbeat(&wasm).unwrap(), 42);
}

#[test]
fn large_memory_export_refused() {
    let mut vm = HopeVM::new();
    let wasm = wat2wasm(br#"(module (memory (export "memory") 300) (func (export "tick") (result i32) (i32.const 1)))"#)
        .unwrap()
        .to_vec();
    match vm.run_heartbeat(&wasm) {
        Err(VmError::MemoryLimit(p)) => assert_eq!(p, 300),
        // A host with a small address-space limit refuses to reserve the memory at all.
        Err(VmError::Instantiate(_)) => {}
        other => panic!("unexpected {:?}", other),
    }
}

#[test]
fn execute_refuses_first_offending_import() {
    let mut vm = HopeVM::new();
    // a memory import before a timer import: the memory import decides
    let wasm = wat2wasm(
        br#"(module
              (import "env" "mem" (memory 1))
              (import "wasi_unstable" "clock_res_get" (func (param i32 i32) (result i32)))
              (func (export "tick") (result i32) (i32.const 1)))"#,
    )
    .unwrap()
    .to_vec();
    match vm.execute(&wasm, "tick", &[]) {
        Err(VmError::MemoryImport(n)) => assert_eq!(n, "mem"),
        other => panic!("unexpected {:?}", other),
    }
    let wasm = wat2wasm(
        br#"(module
              (import "env" "emscripten_get_now" (func (result f64)))
              (func (export "tick") (result i32) (i32.const 1)))"#,
    )
    .unwrap()
    .to_vec();
    match vm.run_heartbeat(&wasm) {
        Err(VmError::TimerImport(m, n)) => assert_eq!((m.as_str(), n.as_str()), ("env", "emscripten_get_now")),
        other => panic!("unexpected {:?}", other),
    }
    // an import that is neither is no import refusal (it fails later, unresolved)
    let wasm = wat2wasm(
        br#"(module
              (import "env" "log" (func (param i32)))
              (func (export "tick") (result i32) (i32.const 1)))"#,
    )
    .unwrap()
    .to_vec();
    assert!(matches!(vm.execute(&wasm, "tick", &[]), Err(VmError::Instantiate(_))));
}

fn export(name: &str, is_function: bool) -> ExportDecl {
    ExportDecl { name: name.to_string(), is_function }
}

#[test]
fn export_check_by_name_and_kind() {
    let exports = vec![export("memory", false), export("tick", true), export("tick", false)];
    assert!(has_function_export(&exports, "tick"));
    assert!(!has_function_export(&exports, "memory"));
    assert!(!has_function_export(&exports, "nope"));
    // the first export of a name decides
    let shadowed = vec![export("run", false), export("run", true)];
    assert!(!has_function_export(&shadowed, "run"));
    assert!(!has_function_export(&Vec::new(), "tick"));
}

#[test]
fn execute_refuses_missing_or_non_function_export() {
    let mut vm = HopeVM::new();
    let wasm = wat2wasm(br#"(module (global (export "g") i32 (i32.const 1)) (func (export "add") (result i32) (i32.const 2)))"#)
        .unwrap()
        .to_vec();
    match vm.execute(&wasm, "sub", &[]) {
        Err(VmError::Export(t)) => assert_eq!(t, "Missing export sub"),
        other => panic!("unexpected {:?}", other),
    }
    match vm.execute(&wasm, "g", &[]) {
        Err(VmError::Export(t)) => assert_eq!(t, "Incompatible Export Type"),
        other => panic!("unexpected {:?}", other),
    }
    assert_eq!(vm.execute(&wasm, "add", &[]).unwrap(), vec![Value::I32(2)]);
    // the heartbeat needs an export named tick
    assert!(matches!(vm.run_heartbeat(&wasm), Err(VmError::Export(_))));
}
