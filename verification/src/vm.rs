//! The isolated WebAssembly sandbox, through the `wasmer` crate: a module is
//! refused when it imports memory or a timer, and an instance is refused
//! when its exported memory exceeds the page limit.
use vstd::prelude::*;
use wasmer::{Function, Imports, Instance, Module, Store, Value};
use crate::text::{chars_of, decimal, push_decimal};

verus! {

/// Most 64 KiB pages an instance may export (16 MiB).
pub const WASM_MAX_PAGES: u32 = 256;

/// Number of blocked timer imports.
pub const BLOCKED_IMPORT_COUNT: usize = 6;

#[verifier::external_type_specification]
#[verifier::external_body]
pub struct ExStore(Store);

#[verifier::external_type_specification]
#[verifier::external_body]
pub struct ExModule(Module);

#[verifier::external_type_specification]
#[verifier::external_body]
pub struct ExInstance(Instance);

#[verifier::external_type_specification]
#[verifier::external_body]
pub struct ExFunction(Function);

#[verifier::external_type_specification]
#[verifier::external_body]
pub struct ExValue(Value);

/// An import of a module as plain values: where from, what, and whether it
/// is a memory.
pub struct ImportDecl {
    pub module: String,
    pub name: String,
    pub is_memory: bool,
}

/// An export of a module as plain values: its name and whether it is a
/// function.
pub struct ExportDecl {
    pub name: String,
    pub is_function: bool,
}

/// An export as plain values: (name, whether it is a function).
pub open spec fn export_view(d: ExportDecl) -> (Seq<char>, bool) {
    (d.name@, d.is_function)
}

/// The exports of `s` as plain values.
pub open spec fn export_views(s: Seq<ExportDecl>) -> Seq<(Seq<char>, bool)> {
    s.map_values(|d: ExportDecl| export_view(d))
}

/// Whether the export named `name` among `exports` is a function: `None`
/// when there is no such export, else whether the first one is a function.
pub open spec fn export_kind(exports: Seq<(Seq<char>, bool)>, name: Seq<char>) -> Option<bool>
    decreases exports.len(),
{
    if exports.len() == 0 {
        None
    } else if exports[0].0 == name {
        Some(exports[0].1)
    } else {
        export_kind(exports.drop_first(), name)
    }
}

/// Whether the first export named `name` among `exports` is a function.
pub fn has_function_export(exports: &Vec<ExportDecl>, name: &str) -> (r: bool)
    ensures
        r == (export_kind(export_views(exports@), name@) == Some(true)),
{
    let ghost views = export_views(exports@);
    let mut i: usize = 0;
    assert(views.skip(0) =~= views);
    while i < exports.len()
        invariant
            i <= exports@.len(),
            views == export_views(exports@),
            export_kind(views, name@) == export_kind(views.skip(i as int), name@),
        decreases exports@.len() - i,
    {
        let d = &exports[i];
        assert(views.skip(i as int)[0] == export_view(*d));
        if same_text(d.name.as_str(), name) {
            return d.is_function;
        }
        assert(views.skip(i as int).drop_first() =~= views.skip(i + 1));
        i = i + 1;
    }
    false
}

/// An import as plain values: (module, name, whether it is a memory).
pub open spec fn decl_view(d: ImportDecl) -> (Seq<char>, Seq<char>, bool) {
    (d.module@, d.name@, d.is_memory)
}

/// The imports of `s` as plain values.
pub open spec fn decl_views(s: Seq<ImportDecl>) -> Seq<(Seq<char>, Seq<char>, bool)> {
    s.map_values(|d: ImportDecl| decl_view(d))
}

/// Why the sandbox refused to run a module.
#[derive(Debug)]
pub enum VmError {
    Compile(String),
    MemoryImport(String),
    TimerImport(String, String),
    Instantiate(String),
    MemoryLimit(u32),
    Export(String),
    Runtime(String),
}

/// Calls `Store::default`.
#[verifier::external_body]
fn store_new() -> Store {
    Store::default()
}

/// The imports that the WebAssembly module in `bytes` declares, in order, as
/// (module, name, whether it is a memory): what `Module::imports` lists for a
/// module that `Module::new` compiled from those bytes.
pub uninterp spec fn wasm_imports(bytes: Seq<u8>) -> Seq<(Seq<char>, Seq<char>, bool)>;

/// The exports that the WebAssembly module in `bytes` declares, in order, as
/// (name, whether it is a function): what `Module::exports` lists for a
/// module that `Module::new` compiled from those bytes.
pub uninterp spec fn wasm_exports(bytes: Seq<u8>) -> Seq<(Seq<char>, bool)>;

/// Calls `Module::new`, then `Module::imports` and `Module::exports` on the
/// new module, reading each import's module, name and whether its type is a
/// memory, and each export's name and whether it is a function; a compile
/// error becomes its text. Trusted: the imports read are
/// `wasm_imports(bytes)` and the exports `wasm_exports(bytes)`, what the
/// module declares, which depends on the bytes alone. Whether compiling
/// succeeds is not claimed: besides the bytes it depends on the machine
/// (`CompileError::Resource` reports insufficient resources), and nothing is
/// claimed of the module or of the error's text.
#[verifier::external_body]
fn compile(store: &Store, bytes: &[u8]) -> (r: Result<(Module, Vec<ImportDecl>, Vec<ExportDecl>), String>)
    ensures
        r matches Ok((_, imports, exports)) ==> decl_views(imports@) == wasm_imports(bytes@)
            && export_views(exports@) == wasm_exports(bytes@),
{
    let module = Module::new(store, bytes).map_err(|e| e.to_string())?;
    let imports = module.imports().map(|i| ImportDecl {
        module: i.module().to_string(),
        name: i.name().to_string(),
        is_memory: i.ty().memory().is_some(),
    }).collect();
    let exports = module.exports().map(|e| ExportDecl {
        name: e.name().to_string(),
        is_function: e.ty().func().is_some(),
    }).collect();
    Ok((module, imports, exports))
}

/// Calls `Instance::new` with no imports; an error becomes its text.
/// Nothing is claimed of the instance or of the error.
#[verifier::external_body]
fn instantiate(store: &mut Store, module: &Module) -> Result<Instance, String> {
    Instance::new(store, module, &Imports::new()).map_err(|e| e.to_string())
}

/// Calls `Exports::get_memory("memory")` and, when there is one, the page
/// count of its view; nothing is claimed of the count.
#[verifier::external_body]
fn exported_memory_pages(store: &Store, instance: &Instance) -> Option<u32> {
    match instance.exports.get_memory("memory") {
        Ok(memory) => Some(memory.view(store).size().0),
        Err(_) => None,
    }
}

/// Calls `Exports::get_function(name)`; an error becomes its text.
#[verifier::external_body]
fn export_function<'a>(instance: &'a Instance, name: &str) -> Result<&'a Function, String> {
    instance.exports.get_function(name).map_err(|e| e.to_string())
}

/// Calls `Function::call`; a trap becomes its text. Nothing is claimed of
/// the results.
#[verifier::external_body]
fn call_function(store: &mut Store, function: &Function, args: &[Value]) -> Result<Vec<Value>, String> {
    function.call(store, args).map(|r| r.to_vec()).map_err(|e| e.to_string())
}

/// Tells the variant of a `Value`: the number of an `I32`, `None` for the
/// others.
#[verifier::external_body]
fn value_as_i32(v: &Value) -> Option<i32> {
    match v {
        Value::I32(x) => Some(*x),
        _ => None,
    }
}

/// The blocked timer imports, as (module, name).
pub open spec fn blocked_import(k: int) -> (Seq<char>, Seq<char>) {
    if k == 0 {
        ("wasi_snapshot_preview1"@, "clock_time_get"@)
    } else if k == 1 {
        ("wasi_snapshot_preview1"@, "clock_res_get"@)
    } else if k == 2 {
        ("wasi_unstable"@, "clock_time_get"@)
    } else if k == 3 {
        ("wasi_unstable"@, "clock_res_get"@)
    } else if k == 4 {
        ("env"@, "emscripten_get_now"@)
    } else {
        ("env"@, "__wasi_clock_time_get"@)
    }
}

fn blocked_import_at(k: usize) -> (r: (&'static str, &'static str))
    requires
        k < BLOCKED_IMPORT_COUNT,
    ensures
        (r.0@, r.1@) == blocked_import(k as int),
{
    if k == 0 {
        ("wasi_snapshot_preview1", "clock_time_get")
    } else if k == 1 {
        ("wasi_snapshot_preview1", "clock_res_get")
    } else if k == 2 {
        ("wasi_unstable", "clock_time_get")
    } else if k == 3 {
        ("wasi_unstable", "clock_res_get")
    } else if k == 4 {
        ("env", "emscripten_get_now")
    } else {
        ("env", "__wasi_clock_time_get")
    }
}

/// Whether (`module`, `name`) is one of the blocked timer imports.
pub open spec fn is_blocked(module: Seq<char>, name: Seq<char>) -> bool {
    exists|k: int| 0 <= k < BLOCKED_IMPORT_COUNT && #[trigger] blocked_import(k) == (module, name)
}

/// The outcome of checking a module's imports.
pub enum ImportVerdict {
    Accepted,
    MemoryImport(Seq<char>),
    TimerImport(Seq<char>, Seq<char>),
}

/// The imports are checked in order; the first memory import or blocked
/// timer import refuses the module.
pub open spec fn import_verdict(s: Seq<(Seq<char>, Seq<char>, bool)>) -> ImportVerdict
    decreases s.len(),
{
    if s.len() == 0 {
        ImportVerdict::Accepted
    } else if s[0].2 {
        ImportVerdict::MemoryImport(s[0].1)
    } else if is_blocked(s[0].0, s[0].1) {
        ImportVerdict::TimerImport(s[0].0, s[0].1)
    } else {
        import_verdict(s.drop_first())
    }
}

/// `r` is what `import_verdict` gives.
pub open spec fn matches_verdict(r: Result<(), VmError>, v: ImportVerdict) -> bool {
    match r {
        Ok(()) => v is Accepted,
        Err(VmError::MemoryImport(n)) => v == ImportVerdict::MemoryImport(n@),
        Err(VmError::TimerImport(m, n)) => v == ImportVerdict::TimerImport(m@, n@),
        Err(_) => false,
    }
}

/// `r` agrees with the import check `v`: a refused module gives exactly the
/// refusal of the check, an accepted one no import refusal at all.
pub open spec fn import_outcome<T>(r: Result<T, VmError>, v: ImportVerdict) -> bool {
    match v {
        ImportVerdict::Accepted => !(r matches Err(VmError::MemoryImport(_))) && !(r matches Err(
            VmError::TimerImport(_, _),
        )),
        ImportVerdict::MemoryImport(n) => r matches Err(VmError::MemoryImport(m)) && m@ == n,
        ImportVerdict::TimerImport(a, b) => r matches Err(VmError::TimerImport(x, y)) && x@ == a
            && y@ == b,
    }
}

fn same_text(a: &str, b: &str) -> (r: bool)
    ensures
        r == (a@ == b@),
{
    let x = chars_of(a);
    let y = chars_of(b);
    if x.len() != y.len() {
        return false;
    }
    let mut i: usize = 0;
    while i < x.len()
        invariant
            i <= x@.len(),
            x@.len() == y@.len(),
            x@ == a@,
            y@ == b@,
            forall|j: int| 0 <= j < i ==> x@[j] == y@[j],
        decreases x@.len() - i,
    {
        if x[i] != y[i] {
            assert(x@[i as int] != y@[i as int]);
            return false;
        }
        i = i + 1;
    }
    assert(x@ =~= y@);
    true
}

fn blocked(module: &str, name: &str) -> (r: bool)
    ensures
        r == is_blocked(module@, name@),
{
    let mut k: usize = 0;
    while k < BLOCKED_IMPORT_COUNT
        invariant
            k <= BLOCKED_IMPORT_COUNT,
            forall|j: int| 0 <= j < k ==> #[trigger] blocked_import(j) != (module@, name@),
        decreases BLOCKED_IMPORT_COUNT - k,
    {
        let (m, n) = blocked_import_at(k);
        if same_text(module, m) && same_text(name, n) {
            return true;
        }
        k = k + 1;
    }
    false
}

/// Refuses the first import that is a memory or a blocked timer.
pub fn validate_imports(imports: &Vec<ImportDecl>) -> (r: Result<(), VmError>)
    ensures
        matches_verdict(r, import_verdict(decl_views(imports@))),
{
    let mut i: usize = 0;
    let ghost views = decl_views(imports@);
    assert(views.skip(0) =~= views);
    while i < imports.len()
        invariant
            i <= imports@.len(),
            views == decl_views(imports@),
            import_verdict(views) == import_verdict(views.skip(i as int)),
        decreases imports@.len() - i,
    {
        let d = &imports[i];
        assert(views.skip(i as int)[0] == decl_view(*d));
        if d.is_memory {
            return Err(VmError::MemoryImport(String::from_str(d.name.as_str())));
        }
        if blocked(d.module.as_str(), d.name.as_str()) {
            return Err(
                VmError::TimerImport(
                    String::from_str(d.module.as_str()),
                    String::from_str(d.name.as_str()),
                ),
            );
        }
        assert(views.skip(i as int).drop_first() =~= views.skip(i + 1));
        i = i + 1;
    }
    Ok(())
}

/// Refuses an exported memory of more than `WASM_MAX_PAGES` pages.
pub fn check_memory_pages(pages: Option<u32>) -> (r: Result<(), VmError>)
    ensures
        (pages matches Some(p) && p > WASM_MAX_PAGES) ==> (r matches Err(VmError::MemoryLimit(q))
            && q == pages->0),
        !(pages matches Some(p) && p > WASM_MAX_PAGES) ==> r is Ok,
{
    match pages {
        Some(p) => {
            if p > WASM_MAX_PAGES {
                Err(VmError::MemoryLimit(p))
            } else {
                Ok(())
            }
        },
        None => Ok(()),
    }
}

/// The heartbeat of a `tick` result: the first value when it is an `I32`,
/// read as unsigned, else 0.
pub fn heartbeat_value(first: Option<i32>) -> (r: u32)
    ensures
        first matches Some(v) ==> r == v as u32,
        first is None ==> r == 0,
{
    match first {
        Some(v) => v as u32,
        None => 0,
    }
}

impl VmError {
    /// The text of the error.
    pub fn message(&self) -> (r: String)
        ensures
            self matches VmError::TimerImport(m, n) ==> r@ == "HopeVM: WASI timer import megtagadva ("@
                + m@ + "."@ + n@ + ") — side-channel védelem"@,
            self matches VmError::MemoryImport(n) ==> r@ == "HopeVM: memória import megtagadva ('"@
                + n@ + "')"@,
            self matches VmError::MemoryLimit(p) ==> r@ == "HopeVM: memória limit túllépve ("@
                + decimal(p as nat) + " pages > 256 max = 16MB)"@,
            self matches VmError::Compile(t) ==> r@ == t@,
            self matches VmError::Instantiate(t) ==> r@ == t@,
            self matches VmError::Export(t) ==> r@ == t@,
            self matches VmError::Runtime(t) ==> r@ == t@,
    {
        match self {
            VmError::Compile(t) => String::from_str(t.as_str()),
            VmError::MemoryImport(n) => {
                let mut r = String::from_str("HopeVM: memória import megtagadva ('");
                r.append(n.as_str());
                r.append("')");
                r
            },
            VmError::TimerImport(m, n) => {
                let mut r = String::from_str("HopeVM: WASI timer import megtagadva (");
                r.append(m.as_str());
                r.append(".");
                r.append(n.as_str());
                r.append(") — side-channel védelem");
                r
            },
            VmError::Instantiate(t) => String::from_str(t.as_str()),
            VmError::MemoryLimit(p) => {
                let mut r = String::from_str("HopeVM: memória limit túllépve (");
                push_decimal(&mut r, *p as u64);
                r.append(" pages > 256 max = 16MB)");
                r
            },
            VmError::Export(t) => String::from_str(t.as_str()),
            VmError::Runtime(t) => String::from_str(t.as_str()),
        }
    }
}

/// A WebAssembly sandbox with its own store.
pub struct HopeVM {
    store: Store,
}

impl HopeVM {
    pub fn new() -> Self {
        HopeVM { store: store_new() }
    }

    /// Compiles `wasm_bytes`, refuses memory and timer imports, instantiates
    /// the module with no imports, refuses an exported memory over the page
    /// limit, looks up the export `func_name` (refusing one that the module
    /// does not declare as a function), then calls it with `args`.
    pub fn execute(&mut self, wasm_bytes: &[u8], func_name: &str, args: &[Value]) -> (r: Result<
        Vec<Value>,
        VmError,
    >)
        ensures
            !(r matches Err(VmError::Compile(_))) ==> import_outcome(
                r,
                import_verdict(wasm_imports(wasm_bytes@)),
            ),
            r matches Err(VmError::MemoryLimit(p)) ==> p > WASM_MAX_PAGES,
            r matches Err(VmError::TimerImport(m, n)) ==> is_blocked(m@, n@),
            (r is Ok || r matches Err(VmError::Runtime(_))) ==> export_kind(
                wasm_exports(wasm_bytes@),
                func_name@,
            ) == Some(true),
    {
        let (module, imports, exports) = match compile(&self.store, wasm_bytes) {
            Ok(c) => c,
            Err(e) => {
                return Err(VmError::Compile(e));
            },
        };
        match validate_imports(&imports) {
            Ok(()) => {},
            Err(e) => {
                proof {
                    lemma_verdict_blocked(decl_views(imports@));
                }
                return Err(e);
            },
        }
        let instance = match instantiate(&mut self.store, &module) {
            Ok(i) => i,
            Err(e) => {
                return Err(VmError::Instantiate(e));
            },
        };
        let pages = exported_memory_pages(&self.store, &instance);
        match check_memory_pages(pages) {
            Ok(()) => {},
            Err(e) => {
                return Err(e);
            },
        }
        let function = match export_function(&instance, func_name) {
            Ok(f) => f,
            Err(e) => {
                return Err(VmError::Export(e));
            },
        };
        if !has_function_export(&exports, func_name) {
            let mut t = String::from_str("HopeVM: not a declared function export: ");
            t.append(func_name);
            return Err(VmError::Export(t));
        }
        match call_function(&mut self.store, function, args) {
            Ok(v) => Ok(v),
            Err(e) => Err(VmError::Runtime(e)),
        }
    }

    /// Runs the export `tick` and reads its first result as the heartbeat:
    /// an `I32` read as unsigned, else 0.
    pub fn run_heartbeat(&mut self, wasm_bytes: &[u8]) -> (r: Result<u32, VmError>)
        ensures
            !(r matches Err(VmError::Compile(_))) ==> import_outcome(
                r,
                import_verdict(wasm_imports(wasm_bytes@)),
            ),
            r matches Err(VmError::MemoryLimit(p)) ==> p > WASM_MAX_PAGES,
            r matches Err(VmError::TimerImport(m, n)) ==> is_blocked(m@, n@),
            (r is Ok || r matches Err(VmError::Runtime(_))) ==> export_kind(
                wasm_exports(wasm_bytes@),
                "tick"@,
            ) == Some(true),
    {
        let results = match self.execute(wasm_bytes, "tick", &[]) {
            Ok(v) => v,
            Err(e) => {
                return Err(e);
            },
        };
        let first = if results.len() > 0 {
            value_as_i32(&results[0])
        } else {
            None
        };
        Ok(heartbeat_value(first))
    }
}

/// A refusal for a timer import names a blocked import.
proof fn lemma_verdict_blocked(s: Seq<(Seq<char>, Seq<char>, bool)>)
    ensures
        import_verdict(s) matches ImportVerdict::TimerImport(m, n) ==> is_blocked(m, n),
    decreases s.len(),
{
    if s.len() > 0 && !s[0].2 && !is_blocked(s[0].0, s[0].1) {
        lemma_verdict_blocked(s.drop_first());
    }
}

} // verus!
