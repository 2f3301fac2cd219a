//! Compiled rule sets and the compiler that builds them from rule
//! declarations.

use vstd::prelude::*;
use vstd::string::StringExecFns;
use crate::condition::{CondOp, Value};
use crate::layout::{ConditionLayout, ConditionLayoutBuilder};
use crate::re_code::OP_MATCH;
use crate::re_compile::{compile_hex, compile_literal, hex_atom, hex_code, known, literal_code, HexToken};

verus! {

/// How a pattern is written.
#[derive(Debug, Clone, PartialEq, Eq)]
pub enum PatternSource {
    /// A text string; `nocase` makes its ASCII letters match in either case.
    Literal { bytes: Vec<u8>, nocase: bool },
    /// A hex string, with wildcards.
    Hex(Vec<HexToken>),
}

/// A named pattern of a rule declaration.
#[derive(Debug, Clone, PartialEq, Eq)]
pub struct PatternDecl {
    pub identifier: String,
    pub source: PatternSource,
}

/// A rule as declared. Its condition names patterns by their position in
/// `patterns` and globals by their order of definition.
#[derive(Debug, Clone, PartialEq, Eq)]
pub struct RuleDecl {
    pub identifier: String,
    pub global: bool,
    pub imports: Vec<String>,
    pub patterns: Vec<PatternDecl>,
    pub condition: Vec<CondOp>,
}

/// A pattern of a compiled rule set.
#[derive(Debug, Clone, PartialEq, Eq)]
pub struct CompiledPattern {
    pub identifier: String,
    /// Its VM program, which starts at offset zero.
    pub code: Vec<u8>,
    /// The bytes searched for before the program runs.
    pub atom: Vec<u8>,
    /// How far the pattern starts before its atom.
    pub backtrack: usize,
    /// The atom matches in either case.
    pub nocase: bool,
}

/// A rule of a compiled rule set; its condition names patterns of the set.
#[derive(Debug, Clone, PartialEq, Eq)]
pub struct CompiledRule {
    pub identifier: String,
    pub namespace: usize,
    pub global: bool,
    pub patterns: Vec<usize>,
    pub condition: Vec<CondOp>,
}

/// A compiled rule set. It does not change once built.
#[derive(Debug, Clone, PartialEq, Eq)]
pub struct Rules {
    pub namespaces: Vec<String>,
    pub rules: Vec<CompiledRule>,
    pub patterns: Vec<CompiledPattern>,
    pub global_names: Vec<String>,
    /// The compiled default of each global.
    pub globals: Vec<Value>,
    /// How the conditions are grouped into functions, namespace by namespace.
    pub layout: ConditionLayout,
}

impl Rules {
    /// Every rule lies in a namespace of the set and names patterns of the
    /// set, and every global has a name.
    pub open spec fn wf(&self) -> bool {
        &&& self.global_names@.len() == self.globals@.len()
        &&& forall|i: int| 0 <= i < self.rules@.len() ==> (#[trigger] self.rules@[i]).namespace < self.namespaces@.len()
        &&& forall|i: int, j: int| 0 <= i < self.rules@.len() && 0 <= j < self.rules@[i].patterns@.len()
            ==> #[trigger] self.rules@[i].patterns@[j] < self.patterns@.len()
    }

    /// The name of rule `i`.
    pub fn rule_name(&self, i: usize) -> (r: &str)
        requires
            i < self.rules@.len(),
        ensures
            r@ == self.rules@[i as int].identifier@,
    {
        self.rules[i].identifier.as_str()
    }
}

/// A module that rules may not import, and the error reported when one does.
#[derive(Debug, Clone, PartialEq, Eq)]
pub struct BannedModule {
    pub name: String,
    pub title: String,
    pub message: String,
}

/// The compiler's switches.
#[derive(Debug, Clone, Copy, PartialEq, Eq, Structural)]
pub struct CompilerFlags {
    pub colorize_errors: bool,
    pub relaxed_re_syntax: bool,
    pub error_on_slow_pattern: bool,
    pub error_on_slow_loop: bool,
    pub condition_optimization: bool,
    pub enable_includes: bool,
}

/// Why a rule or a global was refused.
#[derive(Debug, Clone, PartialEq, Eq)]
pub enum CompileError {
    /// A rule of the same name exists in the namespace.
    DuplicateRule { identifier: String },
    /// The rule imports a banned module.
    BannedModule { title: String, message: String },
    /// The condition names a pattern the rule does not declare.
    UnknownPattern { index: usize },
    /// The condition names a global that is not defined.
    UnknownGlobal { index: usize },
    /// A pattern has no atom of two bytes or more, and slow patterns are errors.
    SlowPattern { identifier: String },
}

impl CompileError {
    /// The stable code of the error.
    pub fn code(&self) -> (r: &'static str)
        ensures
            self is DuplicateRule ==> r@ == "E012"@,
            self is BannedModule ==> r@ == "E100"@,
            self is UnknownPattern || self is UnknownGlobal ==> r@ == "E009"@,
            self is SlowPattern ==> r@ == "E018"@,
    {
        match self {
            CompileError::DuplicateRule { .. } => "E012",
            CompileError::BannedModule { .. } => "E100",
            CompileError::UnknownPattern { .. } => "E009",
            CompileError::UnknownGlobal { .. } => "E009",
            CompileError::SlowPattern { .. } => "E018",
        }
    }
}

impl Warning {
    /// The stable code of the warning.
    pub fn code(&self) -> (r: &'static str)
        ensures
            self is IgnoredRule ==> r@ == "ignored_rule"@,
            self is SlowPattern ==> r@ == "slow_pattern"@,
    {
        match self {
            Warning::IgnoredRule { .. } => "ignored_rule",
            Warning::SlowPattern { .. } => "slow_pattern",
        }
    }
}

/// Why a global could not be defined or set.
#[derive(Debug, Clone, Copy, PartialEq, Eq, Structural)]
pub enum VariableError {
    /// No global has that name.
    Unknown,
    /// A global of that name is already defined.
    AlreadyExists,
    /// The value's type differs from the global's.
    InvalidType,
}

/// A compiler warning.
#[derive(Debug, Clone, PartialEq, Eq)]
pub enum Warning {
    /// A rule was dropped because it imports an ignored module.
    IgnoredRule { rule: String, module: String },
    /// A pattern has no atom of two bytes or more.
    SlowPattern { identifier: String },
}

/// Builds rule sets.
pub struct Compiler {
    pub flags: CompilerFlags,
    pub namespaces: Vec<String>,
    pub current_namespace: usize,
    pub rules: Vec<CompiledRule>,
    pub patterns: Vec<CompiledPattern>,
    pub global_names: Vec<String>,
    pub globals: Vec<Value>,
    pub ignored_modules: Vec<String>,
    pub banned_modules: Vec<BannedModule>,
    pub features: Vec<String>,
    pub include_dirs: Vec<String>,
    pub errors: Vec<CompileError>,
    pub warnings: Vec<Warning>,
}

/// The same type of value.
pub open spec fn same_type(a: Value, b: Value) -> bool {
    (a is Bool && b is Bool) || (a is Int && b is Int)
}

/// The module settings and names of `b` are those of `a`.
pub open spec fn same_settings(a: Compiler, b: Compiler) -> bool {
    &&& b.namespaces == a.namespaces
    &&& b.current_namespace == a.current_namespace
    &&& b.global_names == a.global_names
    &&& b.globals == a.globals
    &&& b.ignored_modules == a.ignored_modules
    &&& b.banned_modules == a.banned_modules
    &&& b.features == a.features
    &&& b.include_dirs == a.include_dirs
}

/// `b` has the rules, patterns, namespaces, globals, errors and warnings of
/// `a`.
pub open spec fn keeps_rules(a: Compiler, b: Compiler) -> bool {
    &&& b.rules == a.rules
    &&& b.patterns == a.patterns
    &&& b.namespaces == a.namespaces
    &&& b.current_namespace == a.current_namespace
    &&& b.global_names == a.global_names
    &&& b.globals == a.globals
    &&& b.errors == a.errors
    &&& b.warnings == a.warnings
}

/// `c` is the compiled form of `d`: the program of its text or hex tokens,
/// and the atom the scanner looks for with how far the pattern starts before
/// it (the first four bytes of a text; a run of fully known bytes of a hex
/// pattern).
pub open spec fn pattern_compiled(c: CompiledPattern, d: PatternDecl) -> bool {
    &&& c.identifier@ == d.identifier@
    &&& match d.source {
        PatternSource::Literal { bytes, nocase } => {
            &&& c.code@ == literal_code(bytes@, nocase).push(OP_MATCH)
            &&& c.atom@ == bytes@.subrange(0, if bytes@.len() < 4 { bytes@.len() as int } else { 4 })
            &&& c.backtrack == 0
            &&& c.nocase == nocase
        },
        PatternSource::Hex(ts) => {
            &&& c.code@ == hex_code(ts@).push(OP_MATCH)
            &&& c.backtrack + c.atom@.len() <= ts@.len()
            &&& forall|k: int| 0 <= k < c.atom@.len() ==> known(#[trigger] ts@[c.backtrack + k])
                && c.atom@[k] == ts@[c.backtrack + k].value
            &&& !c.nocase
        },
    }
}

/// `new` is `old` followed by the compiled form of each of `decls`, in order.
pub open spec fn patterns_added(old: Seq<CompiledPattern>, new: Seq<CompiledPattern>, decls: Seq<PatternDecl>) -> bool {
    &&& new.len() == old.len() + decls.len()
    &&& new.subrange(0, old.len() as int) == old
    &&& forall|k: int| 0 <= k < decls.len() ==> pattern_compiled(#[trigger] new[old.len() + k], decls[k])
}

/// The rule imports a module that the compiler bans.
pub open spec fn imports_banned(c: Compiler, decl: RuleDecl) -> bool {
    exists|i: int, k: int| 0 <= i < decl.imports@.len() && 0 <= k < c.banned_modules@.len()
        && (#[trigger] c.banned_modules@[k]).name@ == (#[trigger] decl.imports@[i])@
}

/// The rule imports a module that the compiler ignores.
pub open spec fn imports_ignored(c: Compiler, decl: RuleDecl) -> bool {
    exists|i: int, k: int| 0 <= i < decl.imports@.len() && 0 <= k < c.ignored_modules@.len()
        && (#[trigger] c.ignored_modules@[k])@ == (#[trigger] decl.imports@[i])@
}

/// A rule of the same name exists in the current namespace.
pub open spec fn duplicate_rule(c: Compiler, decl: RuleDecl) -> bool {
    exists|j: int| 0 <= j < c.rules@.len() && (#[trigger] c.rules@[j]).namespace == c.current_namespace
        && c.rules@[j].identifier@ == decl.identifier@
}

/// An instruction names only patterns of the rule and defined globals.
pub open spec fn op_ok(op: CondOp, npatterns: nat, base: nat, nglobals: nat) -> bool {
    match op {
        CondOp::PatternMatch(p) => p < npatterns && base + p <= usize::MAX,
        CondOp::PatternCount(p) => p < npatterns && base + p <= usize::MAX,
        CondOp::Global(g) => g < nglobals,
        _ => true,
    }
}

/// The condition of the rule names only its own patterns and defined
/// globals.
pub open spec fn refs_ok(c: Compiler, decl: RuleDecl) -> bool {
    &&& c.patterns@.len() + decl.patterns@.len() <= usize::MAX
    &&& forall|k: int| 0 <= k < decl.condition@.len() ==> op_ok(#[trigger] decl.condition@[k], decl.patterns@.len(),
        c.patterns@.len(), c.globals@.len())
}

/// An instruction with its pattern numbers moved past the `base` patterns
/// already in the set.
pub open spec fn relocate(op: CondOp, base: usize) -> CondOp {
    match op {
        CondOp::PatternMatch(p) => CondOp::PatternMatch((base + p) as usize),
        CondOp::PatternCount(p) => CondOp::PatternCount((base + p) as usize),
        _ => op,
    }
}

/// `new` is `old` with the compiled form of `decl` appended: in namespace
/// `ns`, with its patterns numbered from `base`.
pub open spec fn rule_added(old: Seq<CompiledRule>, new: Seq<CompiledRule>, decl: RuleDecl, ns: usize, base: nat) -> bool {
    let r = new.last();
    &&& new.len() == old.len() + 1
    &&& new.drop_last() == old
    &&& r.identifier@ == decl.identifier@
    &&& r.namespace == ns
    &&& r.global == decl.global
    &&& r.patterns@.len() == decl.patterns@.len()
    &&& forall|k: int| 0 <= k < r.patterns@.len() ==> #[trigger] r.patterns@[k] == base + k
    &&& r.condition@ == decl.condition@.map_values(|op: CondOp| relocate(op, base as usize))
}

/// Whether `s` is in `v`.
fn contains_string(v: &Vec<String>, s: &String) -> (r: Option<usize>)
    ensures
        match r {
            Some(i) => i < v@.len() && v@[i as int]@ == s@,
            None => forall|i: int| 0 <= i < v@.len() ==> (#[trigger] v@[i])@ != s@,
        },
{
    let mut i: usize = 0;
    while i < v.len()
        invariant
            i <= v@.len(),
            forall|k: int| 0 <= k < i ==> (#[trigger] v@[k])@ != s@,
        decreases v@.len() - i,
    {
        if v[i] == *s {
            return Some(i);
        }
        i = i + 1;
    }
    None
}

/// The first `n` bytes of `b`, or all of it when it is shorter.
fn prefix(b: &Vec<u8>, n: usize) -> (r: Vec<u8>)
    ensures
        r@ == b@.subrange(0, if b@.len() < n { b@.len() as int } else { n as int }),
{
    let end = if b.len() < n { b.len() } else { n };
    vstd::slice::slice_to_vec(&b.as_slice()[0..end])
}

impl Compiler {
    /// The compiler's well-formedness: the current namespace exists, the
    /// rules lie in existing namespaces and name existing patterns, and
    /// every global has a name.
    pub open spec fn wf(&self) -> bool {
        &&& self.current_namespace < self.namespaces@.len()
        &&& self.global_names@.len() == self.globals@.len()
        &&& forall|i: int| 0 <= i < self.rules@.len() ==> (#[trigger] self.rules@[i]).namespace < self.namespaces@.len()
        &&& forall|i: int, j: int| 0 <= i < self.rules@.len() && 0 <= j < self.rules@[i].patterns@.len()
            ==> #[trigger] self.rules@[i].patterns@[j] < self.patterns@.len()
    }

    /// The number of rules compiled so far.
    pub open spec fn num_rules(&self) -> nat {
        self.rules@.len()
    }

    /// The state of a new compiler: only the default namespace, and no
    /// rule, pattern, global, module setting, feature, include directory,
    /// error or warning.
    pub open spec fn is_fresh(&self) -> bool {
        &&& self.namespaces@.len() == 1
        &&& self.namespaces@[0]@ == "default"@
        &&& self.current_namespace == 0
        &&& self.rules@.len() == 0
        &&& self.patterns@.len() == 0
        &&& self.global_names@.len() == 0
        &&& self.globals@.len() == 0
        &&& self.ignored_modules@.len() == 0
        &&& self.banned_modules@.len() == 0
        &&& self.features@.len() == 0
        &&& self.include_dirs@.len() == 0
        &&& self.errors@.len() == 0
        &&& self.warnings@.len() == 0
    }

    /// Creates a compiler with the default namespace and the given switches.
    pub fn with_flags(flags: CompilerFlags) -> (r: Compiler)
        ensures
            r.wf(),
            r.is_fresh(),
            r.flags == flags,
            r.num_rules() == 0,
    {
        let mut namespaces: Vec<String> = Vec::new();
        namespaces.push(String::from_str("default"));
        Compiler {
            flags,
            namespaces,
            current_namespace: 0,
            rules: Vec::new(),
            patterns: Vec::new(),
            global_names: Vec::new(),
            globals: Vec::new(),
            ignored_modules: Vec::new(),
            banned_modules: Vec::new(),
            features: Vec::new(),
            include_dirs: Vec::new(),
            errors: Vec::new(),
            warnings: Vec::new(),
        }
    }

    /// Creates a compiler with includes enabled and every other switch off.
    pub fn new() -> (r: Compiler)
        ensures
            r.wf(),
            r.num_rules() == 0,
            r.is_fresh(),
            r.flags.enable_includes && !r.flags.colorize_errors && !r.flags.relaxed_re_syntax
                && !r.flags.error_on_slow_pattern && !r.flags.error_on_slow_loop && !r.flags.condition_optimization,
    {
        Compiler::with_flags(CompilerFlags {
            colorize_errors: false,
            relaxed_re_syntax: false,
            error_on_slow_pattern: false,
            error_on_slow_loop: false,
            condition_optimization: false,
            enable_includes: true,
        })
    }

    /// Makes `name` the namespace of the rules added next, creating it when
    /// it does not exist.
    pub fn new_namespace(&mut self, name: &str)
        requires
            old(self).wf(),
        ensures
            final(self).wf(),
            final(self).num_rules() == old(self).num_rules(),
            final(self).flags == old(self).flags,
            final(self).namespaces@[final(self).current_namespace as int]@ == name@,
            final(self).namespaces@.len() >= old(self).namespaces@.len(),
            final(self).namespaces@.subrange(0, old(self).namespaces@.len() as int) == old(self).namespaces@,
            (exists|i: int| 0 <= i < old(self).namespaces@.len() && (#[trigger] old(self).namespaces@[i])@ == name@)
                ==> final(self).namespaces == old(self).namespaces,
            final(self).rules == old(self).rules,
            final(self).patterns == old(self).patterns,
            final(self).global_names == old(self).global_names,
            final(self).globals == old(self).globals,
            final(self).errors == old(self).errors,
            final(self).warnings == old(self).warnings,
            final(self).ignored_modules == old(self).ignored_modules,
            final(self).banned_modules == old(self).banned_modules,
            final(self).features == old(self).features,
            final(self).include_dirs == old(self).include_dirs,
    {
        let name = String::from_str(name);
        match contains_string(&self.namespaces, &name) {
            Some(i) => {
                self.current_namespace = i;
            },
            None => {
                let ghost before = self.namespaces@;
                self.namespaces.push(name);
                self.current_namespace = self.namespaces.len() - 1;
                proof {
                    assert(self.namespaces@.subrange(0, before.len() as int) =~= before);
                }
            },
        }
    }

    /// Defines a global with its default value.
    pub fn define_global(&mut self, ident: &str, value: Value) -> (r: Result<(), VariableError>)
        requires
            old(self).wf(),
        ensures
            final(self).wf(),
            final(self).num_rules() == old(self).num_rules(),
            final(self).flags == old(self).flags,
            r is Ok <==> forall|i: int| 0 <= i < old(self).global_names@.len()
                ==> (#[trigger] old(self).global_names@[i])@ != ident@,
            r is Err ==> r == Err::<(), VariableError>(VariableError::AlreadyExists),
            r is Ok ==> final(self).global_names@.map_values(|n: String| n@) == old(self).global_names@.map_values(
                |n: String| n@).push(ident@) && final(self).globals@ == old(self).globals@.push(value),
            r is Err ==> final(self).global_names == old(self).global_names && final(self).globals == old(self).globals,
    {
        let name = String::from_str(ident);
        match contains_string(&self.global_names, &name) {
            Some(_) => Err(VariableError::AlreadyExists),
            None => {
                let ghost before = self.global_names@;
                self.global_names.push(name);
                self.globals.push(value);
                proof {
                    assert(self.global_names@.map_values(|n: String| n@) =~= before.map_values(|n: String| n@).push(ident@));
                }
                Ok(())
            },
        }
    }

    /// Drops, with a warning, every rule that imports `module`.
    pub fn ignore_module(&mut self, module: &str)
        requires
            old(self).wf(),
        ensures
            final(self).wf(),
            final(self).num_rules() == old(self).num_rules(),
            final(self).flags == old(self).flags,
            keeps_rules(*old(self), *final(self)),
            final(self).ignored_modules@.map_values(|m: String| m@) == old(self).ignored_modules@.map_values(|m: String| m@).push(module@),
            final(self).banned_modules == old(self).banned_modules,
            final(self).features == old(self).features,
            final(self).include_dirs == old(self).include_dirs,
    {
        let ghost before = self.ignored_modules@;
        self.ignored_modules.push(String::from_str(module));
        proof {
            assert(self.ignored_modules@.map_values(|m: String| m@) =~= before.map_values(|m: String| m@).push(module@));
        }
    }

    /// Refuses every rule that imports `module`, with the given error.
    pub fn ban_module(&mut self, module: &str, title: &str, message: &str)
        requires
            old(self).wf(),
        ensures
            final(self).wf(),
            final(self).num_rules() == old(self).num_rules(),
            final(self).flags == old(self).flags,
            keeps_rules(*old(self), *final(self)),
            final(self).banned_modules@.len() == old(self).banned_modules@.len() + 1,
            final(self).banned_modules@.drop_last() == old(self).banned_modules@,
            final(self).banned_modules@.last().name@ == module@,
            final(self).banned_modules@.last().title@ == title@,
            final(self).banned_modules@.last().message@ == message@,
            final(self).ignored_modules == old(self).ignored_modules,
            final(self).features == old(self).features,
            final(self).include_dirs == old(self).include_dirs,
    {
        let ghost before = self.banned_modules@;
        self.banned_modules.push(BannedModule {
            name: String::from_str(module),
            title: String::from_str(title),
            message: String::from_str(message),
        });
        proof {
            assert(self.banned_modules@.drop_last() =~= before);
        }
    }

    /// Enables a feature that module schemas may test.
    pub fn enable_feature(&mut self, feature: &str)
        requires
            old(self).wf(),
        ensures
            final(self).wf(),
            final(self).num_rules() == old(self).num_rules(),
            final(self).flags == old(self).flags,
            keeps_rules(*old(self), *final(self)),
            final(self).features@.map_values(|m: String| m@) == old(self).features@.map_values(|m: String| m@).push(feature@),
            final(self).ignored_modules == old(self).ignored_modules,
            final(self).banned_modules == old(self).banned_modules,
            final(self).include_dirs == old(self).include_dirs,
    {
        let ghost before = self.features@;
        self.features.push(String::from_str(feature));
        proof {
            assert(self.features@.map_values(|m: String| m@) =~= before.map_values(|m: String| m@).push(feature@));
        }
    }

    /// Adds a directory where included files are looked for.
    pub fn add_include_dir(&mut self, dir: &str)
        requires
            old(self).wf(),
        ensures
            final(self).wf(),
            final(self).num_rules() == old(self).num_rules(),
            final(self).flags == old(self).flags,
            keeps_rules(*old(self), *final(self)),
            final(self).include_dirs@.map_values(|m: String| m@) == old(self).include_dirs@.map_values(|m: String| m@).push(dir@),
            final(self).ignored_modules == old(self).ignored_modules,
            final(self).banned_modules == old(self).banned_modules,
            final(self).features == old(self).features,
    {
        let ghost before = self.include_dirs@;
        self.include_dirs.push(String::from_str(dir));
        proof {
            assert(self.include_dirs@.map_values(|m: String| m@) =~= before.map_values(|m: String| m@).push(dir@));
        }
    }

    /// The errors reported so far.
    pub fn errors(&self) -> (r: &Vec<CompileError>)
        ensures
            r@ == self.errors@,
    {
        &self.errors
    }

    /// The warnings reported so far.
    pub fn warnings(&self) -> (r: &Vec<Warning>)
        ensures
            r@ == self.warnings@,
    {
        &self.warnings
    }

    /// Compiles one pattern, with its atom.
    fn compile_pattern(&mut self, p: &PatternDecl) -> (r: Result<CompiledPattern, CompileError>)
        ensures
            final(self).flags == old(self).flags,
            final(self).namespaces == old(self).namespaces,
            final(self).current_namespace == old(self).current_namespace,
            final(self).rules == old(self).rules,
            final(self).patterns == old(self).patterns,
            final(self).global_names == old(self).global_names,
            final(self).globals == old(self).globals,
            same_settings(*old(self), *final(self)),
            r matches Err(e) ==> old(self).flags.error_on_slow_pattern && e is SlowPattern,
            r matches Ok(c) ==> pattern_compiled(c, *p),
    {
        let (code, atom, backtrack, nocase) = match &p.source {
            PatternSource::Literal { bytes, nocase } => {
                (compile_literal(bytes.as_slice(), *nocase), prefix(bytes, 4), 0, *nocase)
            },
            PatternSource::Hex(tokens) => {
                let (start, atom) = hex_atom(tokens.as_slice());
                (compile_hex(tokens.as_slice()), atom, start, false)
            },
        };
        if atom.len() < 2 {
            if self.flags.error_on_slow_pattern {
                let e = CompileError::SlowPattern { identifier: p.identifier.clone() };
                self.errors.push(e.clone());
                return Err(e);
            }
            self.warnings.push(Warning::SlowPattern { identifier: p.identifier.clone() });
        }
        Ok(CompiledPattern { identifier: p.identifier.clone(), code, atom, backtrack, nocase })
    }

    /// Adds a rule to the current namespace. A rule that imports an ignored
    /// module is dropped with a warning.
    pub fn add_rule(&mut self, decl: &RuleDecl) -> (r: Result<(), CompileError>)
        requires
            old(self).wf(),
        ensures
            final(self).wf(),
            final(self).flags == old(self).flags,
            same_settings(*old(self), *final(self)),
            final(self).rules@ == old(self).rules@ || rule_added(old(self).rules@, final(self).rules@, *decl,
                old(self).current_namespace, old(self).patterns@.len()),
            r is Err ==> final(self).rules@ == old(self).rules@,
            final(self).rules@ == old(self).rules@ ==> final(self).patterns@ == old(self).patterns@,
            final(self).rules@ != old(self).rules@ ==> patterns_added(old(self).patterns@, final(self).patterns@,
                decl.patterns@),
            r matches Err(CompileError::BannedModule { .. }) ==> imports_banned(*old(self), *decl),
            r matches Err(CompileError::DuplicateRule { .. }) ==> duplicate_rule(*old(self), *decl),
            r matches Err(CompileError::UnknownPattern { .. }) ==> !refs_ok(*old(self), *decl),
            r matches Err(CompileError::UnknownGlobal { .. }) ==> !refs_ok(*old(self), *decl),
            r matches Err(CompileError::SlowPattern { .. }) ==> old(self).flags.error_on_slow_pattern,
            r is Ok && final(self).rules@ == old(self).rules@ ==> imports_ignored(*old(self), *decl),
            !imports_banned(*old(self), *decl) && !imports_ignored(*old(self), *decl) && !duplicate_rule(*old(self), *decl)
                && refs_ok(*old(self), *decl) && !old(self).flags.error_on_slow_pattern ==> r is Ok && rule_added(
                old(self).rules@, final(self).rules@, *decl, old(self).current_namespace, old(self).patterns@.len()),
    {
        let mut i: usize = 0;
        while i < decl.imports.len()
            invariant
                self.wf(),
                self.flags == old(self).flags,
                same_settings(*old(self), *self),
                self.rules@ == old(self).rules@,
                self.patterns@ == old(self).patterns@,
                forall|i2: int, k2: int| 0 <= i2 < i && 0 <= k2 < self.banned_modules@.len() ==>
                    (#[trigger] self.banned_modules@[k2]).name@ != (#[trigger] decl.imports@[i2])@,
                forall|i2: int, k2: int| 0 <= i2 < i && 0 <= k2 < self.ignored_modules@.len() ==>
                    (#[trigger] self.ignored_modules@[k2])@ != (#[trigger] decl.imports@[i2])@,
            decreases decl.imports@.len() - i,
        {
            let mut k: usize = 0;
            while k < self.banned_modules.len()
                invariant
                    i < decl.imports@.len(),
                    self.wf(),
                    self.flags == old(self).flags,
                    same_settings(*old(self), *self),
                    self.rules@ == old(self).rules@,
                    self.patterns@ == old(self).patterns@,
                    forall|i2: int, k2: int| 0 <= i2 < i && 0 <= k2 < self.banned_modules@.len() ==>
                        (#[trigger] self.banned_modules@[k2]).name@ != (#[trigger] decl.imports@[i2])@,
                    forall|i2: int, k2: int| 0 <= i2 < i && 0 <= k2 < self.ignored_modules@.len() ==>
                        (#[trigger] self.ignored_modules@[k2])@ != (#[trigger] decl.imports@[i2])@,
                    forall|k2: int| 0 <= k2 < k ==> (#[trigger] self.banned_modules@[k2]).name@ != decl.imports@[i as int]@,
                decreases self.banned_modules@.len() - k,
            {
                if self.banned_modules[k].name == decl.imports[i] {
                    let e = CompileError::BannedModule {
                        title: self.banned_modules[k].title.clone(),
                        message: self.banned_modules[k].message.clone(),
                    };
                    self.errors.push(e.clone());
                    proof {
                        assert(self.banned_modules@[k as int].name@ == decl.imports@[i as int]@);
                    }
                    return Err(e);
                }
                k = k + 1;
            }
            match contains_string(&self.ignored_modules, &decl.imports[i]) {
                Some(_) => {
                    self.warnings.push(Warning::IgnoredRule { rule: decl.identifier.clone(), module: decl.imports[i].clone() });
                    return Ok(());
                },
                None => {},
            }
            i = i + 1;
        }
        let mut j: usize = 0;
        while j < self.rules.len()
            invariant
                self.wf(),
                self.flags == old(self).flags,
                same_settings(*old(self), *self),
                self.rules@ == old(self).rules@,
                self.patterns@ == old(self).patterns@,
                !imports_banned(*old(self), *decl),
                !imports_ignored(*old(self), *decl),
                forall|j2: int| 0 <= j2 < j ==> !((#[trigger] self.rules@[j2]).namespace == self.current_namespace
                    && self.rules@[j2].identifier@ == decl.identifier@),
            decreases self.rules@.len() - j,
        {
            if self.rules[j].namespace == self.current_namespace && self.rules[j].identifier == decl.identifier {
                let e = CompileError::DuplicateRule { identifier: decl.identifier.clone() };
                self.errors.push(e.clone());
                return Err(e);
            }
            j = j + 1;
        }
        let base = self.patterns.len();
        if decl.patterns.len() > usize::MAX - base {
            let e = CompileError::UnknownPattern { index: decl.patterns.len() };
            self.errors.push(e.clone());
            return Err(e);
        }
        let mut condition: Vec<CondOp> = Vec::new();
        let mut c: usize = 0;
        while c < decl.condition.len()
            invariant
                self.wf(),
                self.flags == old(self).flags,
                same_settings(*old(self), *self),
                self.rules@ == old(self).rules@,
                self.patterns@ == old(self).patterns@,
                !imports_banned(*old(self), *decl),
                !imports_ignored(*old(self), *decl),
                !duplicate_rule(*old(self), *decl),
                base == self.patterns@.len(),
                base + decl.patterns@.len() <= usize::MAX,
                c <= decl.condition@.len(),
                forall|c2: int| 0 <= c2 < c ==> op_ok(#[trigger] decl.condition@[c2], decl.patterns@.len(), base as nat,
                    self.globals@.len()),
                condition@ == decl.condition@.subrange(0, c as int).map_values(|op: CondOp| relocate(op, base)),
            decreases decl.condition@.len() - c,
        {
            let op = decl.condition[c];
            let relocated = match op {
                CondOp::PatternMatch(p) => {
                    if p >= decl.patterns.len() || p > usize::MAX - base {
                        let e = CompileError::UnknownPattern { index: p };
                        self.errors.push(e.clone());
                        proof {
                            assert(!op_ok(decl.condition@[c as int], decl.patterns@.len(), base as nat, self.globals@.len()));
                        }
                        return Err(e);
                    }
                    CondOp::PatternMatch(base + p)
                },
                CondOp::PatternCount(p) => {
                    if p >= decl.patterns.len() || p > usize::MAX - base {
                        let e = CompileError::UnknownPattern { index: p };
                        self.errors.push(e.clone());
                        proof {
                            assert(!op_ok(decl.condition@[c as int], decl.patterns@.len(), base as nat, self.globals@.len()));
                        }
                        return Err(e);
                    }
                    CondOp::PatternCount(base + p)
                },
                CondOp::Global(g) => {
                    if g >= self.globals.len() {
                        let e = CompileError::UnknownGlobal { index: g };
                        self.errors.push(e.clone());
                        proof {
                            assert(!op_ok(decl.condition@[c as int], decl.patterns@.len(), base as nat, self.globals@.len()));
                        }
                        return Err(e);
                    }
                    op
                },
                _ => op,
            };
            let ghost before = condition@;
            condition.push(relocated);
            proof {
                assert(decl.condition@.subrange(0, c + 1) =~= decl.condition@.subrange(0, c as int).push(op));
                assert(condition@ =~= decl.condition@.subrange(0, c + 1).map_values(|op: CondOp| relocate(op, base)));
            }
            c = c + 1;
        }
        proof {
            assert(decl.condition@.subrange(0, decl.condition@.len() as int) =~= decl.condition@);
            assert(refs_ok(*old(self), *decl)) by {
                assert forall|c2: int| 0 <= c2 < decl.condition@.len() implies op_ok(#[trigger] decl.condition@[c2],
                    decl.patterns@.len(), old(self).patterns@.len(), old(self).globals@.len()) by {}
            }
        }
        let mut compiled: Vec<CompiledPattern> = Vec::new();
        let mut q: usize = 0;
        while q < decl.patterns.len()
            invariant
                self.wf(),
                self.flags == old(self).flags,
                same_settings(*old(self), *self),
                self.rules@ == old(self).rules@,
                self.patterns@ == old(self).patterns@,
                base == self.patterns@.len(),
                base + decl.patterns@.len() <= usize::MAX,
                compiled@.len() == q,
                q <= decl.patterns@.len(),
                forall|k: int| 0 <= k < q ==> pattern_compiled(#[trigger] compiled@[k], decl.patterns@[k]),
            decreases decl.patterns@.len() - q,
        {
            match self.compile_pattern(&decl.patterns[q]) {
                Ok(p) => compiled.push(p),
                Err(e) => return Err(e),
            }
            q = q + 1;
        }
        let n = compiled.len();
        let mut ids: Vec<usize> = Vec::new();
        let mut t: usize = 0;
        while t < n
            invariant
                ids@.len() == t,
                t <= n,
                base + n <= usize::MAX,
                forall|k: int| 0 <= k < t ==> #[trigger] ids@[k] == base + k,
            decreases n - t,
        {
            ids.push(base + t);
            t = t + 1;
        }
        let ghost before_patterns = self.patterns@;
        let ghost moved = compiled@;
        self.patterns.append(&mut compiled);
        proof {
            assert(self.patterns@ == before_patterns + moved);
            assert(self.patterns@.subrange(0, before_patterns.len() as int) =~= before_patterns);
            assert forall|k: int| 0 <= k < decl.patterns@.len() implies pattern_compiled(
                #[trigger] self.patterns@[before_patterns.len() + k], decl.patterns@[k]) by {
                assert(self.patterns@[before_patterns.len() + k] == moved[k]);
            }
            assert forall|a: int, b: int| 0 <= a < self.rules@.len() && 0 <= b < self.rules@[a].patterns@.len()
                implies #[trigger] self.rules@[a].patterns@[b] < self.patterns@.len() by {
            }
        }
        let rule = CompiledRule {
            identifier: decl.identifier.clone(),
            namespace: self.current_namespace,
            global: decl.global,
            patterns: ids,
            condition,
        };
        let ghost before = self.rules@;
        self.rules.push(rule);
        proof {
            assert(self.rules@.drop_last() =~= before);
            assert forall|a: int, b: int| 0 <= a < self.rules@.len() && 0 <= b < self.rules@[a].patterns@.len()
                implies #[trigger] self.rules@[a].patterns@[b] < self.patterns@.len() by {
                if a < before.len() {
                    assert(self.rules@[a] == before[a]);
                }
            }
        }
        Ok(())
    }

    /// Takes the rule set compiled so far and leaves the compiler as a new
    /// one with the same switches.
    pub fn build(&mut self) -> (r: Rules)
        requires
            old(self).wf(),
        ensures
            r.wf(),
            r.rules@.len() == old(self).num_rules(),
            r.rules@ == old(self).rules@,
            r.patterns@ == old(self).patterns@,
            r.namespaces@ == old(self).namespaces@,
            r.global_names@ == old(self).global_names@,
            r.globals@ == old(self).globals@,
            final(self).wf(),
            final(self).is_fresh(),
            final(self).num_rules() == 0,
            final(self).flags == old(self).flags,
    {
        let mut old_c = Compiler::with_flags(self.flags);
        std::mem::swap(self, &mut old_c);
        let layout = condition_layout(&old_c.rules, old_c.namespaces.len());
        Rules {
            namespaces: old_c.namespaces,
            rules: old_c.rules,
            patterns: old_c.patterns,
            global_names: old_c.global_names,
            globals: old_c.globals,
            layout,
        }
    }
}

/// The indices below `i` of the rules of namespace `ns`, in order.
pub open spec fn rules_of_namespace(rules: Seq<CompiledRule>, ns: usize, i: nat) -> Seq<usize>
    decreases i,
{
    if i == 0 {
        Seq::empty()
    } else {
        let j = (i - 1) as int;
        rules_of_namespace(rules, ns, (i - 1) as nat) + if rules[j].namespace == ns {
            seq![j as usize]
        } else {
            Seq::empty()
        }
    }
}

/// The indices of the rules of namespaces below `n`: namespace by
/// namespace, in rule order within each.
pub open spec fn namespace_order(rules: Seq<CompiledRule>, n: nat) -> Seq<usize>
    decreases n,
{
    if n == 0 {
        Seq::empty()
    } else {
        namespace_order(rules, (n - 1) as nat) + rules_of_namespace(rules, (n - 1) as usize, rules.len())
    }
}

/// Groups the conditions of `rules` into functions, one namespace after
/// the other, in rule order within each namespace.
pub fn condition_layout(rules: &Vec<CompiledRule>, num_namespaces: usize) -> (r: ConditionLayout)
    ensures
        r.rules@ == namespace_order(rules@, num_namespaces as nat),
{
    let mut b = ConditionLayoutBuilder::new();
    let mut ns: usize = 0;
    while ns < num_namespaces
        invariant
            b.wf(),
            ns <= num_namespaces,
            b.emitted() == namespace_order(rules@, ns as nat),
        decreases num_namespaces - ns,
    {
        b.new_namespace();
        let ghost start = b.emitted();
        let mut i: usize = 0;
        while i < rules.len()
            invariant
                b.wf(),
                i <= rules@.len(),
                b.emitted() == start + rules_of_namespace(rules@, ns, i as nat),
            decreases rules@.len() - i,
        {
            let ghost before = b.emitted();
            if rules[i].namespace == ns {
                b.start_rule(i, rules[i].global);
            }
            proof {
                assert(((i + 1) as nat - 1) as nat == i as nat);
                if rules@[i as int].namespace == ns {
                    assert(b.emitted() =~= start + rules_of_namespace(rules@, ns, (i + 1) as nat));
                } else {
                    assert(b.emitted() =~= start + rules_of_namespace(rules@, ns, (i + 1) as nat));
                }
            }
            i = i + 1;
        }
        proof {
            assert(((ns + 1) as nat - 1) as nat == ns as nat);
        }
        ns = ns + 1;
    }
    b.build()
}

/// Produce colourful error messages.
pub const YRX_COLORIZE_ERRORS: u32 = 1;
/// Accept regular expressions the way YARA does.
pub const YRX_RELAXED_RE_SYNTAX: u32 = 2;
/// Treat slow patterns as errors.
pub const YRX_ERROR_ON_SLOW_PATTERN: u32 = 4;
/// Treat slow loops as errors.
pub const YRX_ERROR_ON_SLOW_LOOP: u32 = 8;
/// Optimise rule conditions.
pub const YRX_ENABLE_CONDITION_OPTIMIZATION: u32 = 16;
/// Refuse `include` statements.
pub const YRX_DISABLE_INCLUDES: u32 = 32;

/// The switches that a flag word sets.
pub open spec fn flags_of(flags: u32) -> CompilerFlags {
    CompilerFlags {
        colorize_errors: flags & YRX_COLORIZE_ERRORS != 0,
        relaxed_re_syntax: flags & YRX_RELAXED_RE_SYNTAX != 0,
        error_on_slow_pattern: flags & YRX_ERROR_ON_SLOW_PATTERN != 0,
        error_on_slow_loop: flags & YRX_ERROR_ON_SLOW_LOOP != 0,
        condition_optimization: flags & YRX_ENABLE_CONDITION_OPTIMIZATION != 0,
        enable_includes: flags & YRX_DISABLE_INCLUDES == 0,
    }
}

/// Creates a compiler configured by a word of `YRX_*` flags.
pub fn _yrx_compiler_create(flags: u32) -> (r: Compiler)
    ensures
        r.wf(),
        r.is_fresh(),
        r.num_rules() == 0,
        r.flags == flags_of(flags),
{
    Compiler::with_flags(CompilerFlags {
        colorize_errors: flags & YRX_COLORIZE_ERRORS != 0,
        relaxed_re_syntax: flags & YRX_RELAXED_RE_SYNTAX != 0,
        error_on_slow_pattern: flags & YRX_ERROR_ON_SLOW_PATTERN != 0,
        error_on_slow_loop: flags & YRX_ERROR_ON_SLOW_LOOP != 0,
        condition_optimization: flags & YRX_ENABLE_CONDITION_OPTIMIZATION != 0,
        enable_includes: flags & YRX_DISABLE_INCLUDES == 0,
    })
}

/// A compiler as handed out through the C interface, with the flags it was
/// created with.
#[allow(non_camel_case_types)]
pub struct YRX_COMPILER {
    pub inner: Compiler,
    pub flags: u32,
}

impl YRX_COMPILER {
    /// Creates a compiler configured by `flags`.
    pub fn create(flags: u32) -> (r: YRX_COMPILER)
        ensures
            r.flags == flags,
            r.inner.wf(),
            r.inner.is_fresh(),
            r.inner.flags == flags_of(flags),
    {
        YRX_COMPILER { inner: _yrx_compiler_create(flags), flags }
    }

    /// Builds the rules compiled so far and replaces the compiler with a new
    /// one created from the same flags, so that it can be used again.
    pub fn build(&mut self) -> (r: Rules)
        requires
            old(self).inner.wf(),
        ensures
            r.wf(),
            r.rules@.len() == old(self).inner.num_rules(),
            r.rules@ == old(self).inner.rules@,
            r.patterns@ == old(self).inner.patterns@,
            r.namespaces@ == old(self).inner.namespaces@,
            r.global_names@ == old(self).inner.global_names@,
            r.globals@ == old(self).inner.globals@,
            final(self).flags == old(self).flags,
            final(self).inner.wf(),
            final(self).inner.is_fresh(),
            final(self).inner.num_rules() == 0,
            final(self).inner.flags == flags_of(old(self).flags),
    {
        let mut inner = _yrx_compiler_create(self.flags);
        std::mem::swap(&mut self.inner, &mut inner);
        inner.build()
    }
}

} // verus!
