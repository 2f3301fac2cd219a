use yara_x::condition::{CondOp, Value};
use yara_x::re_compile::HexToken;
use yara_x::rules::{
    Compiler, CompileError, PatternDecl, PatternSource, RuleDecl, Rules, VariableError, _yrx_compiler_create,
    YRX_COMPILER, YRX_DISABLE_INCLUDES, YRX_ERROR_ON_SLOW_PATTERN,
};
use yara_x::scanner::Scanner;

fn literal(id: &str, text: &str) -> PatternDecl {
    PatternDecl {
        identifier: id.to_string(),
        source: PatternSource::Literal { bytes: text.as_bytes().to_vec(), nocase: false },
    }
}

fn rule(name: &str, patterns: Vec<PatternDecl>, condition: Vec<CondOp>) -> RuleDecl {
    RuleDecl { identifier: name.to_string(), global: false, imports: vec![], patterns, condition }
}

fn constant(b: bool) -> Vec<CondOp> {
    vec![CondOp::Const(Value::Bool(b))]
}

fn names(rules: &Rules, ids: &[usize]) -> Vec<String> {
    ids.iter().map(|i| rules.rule_name(*i).to_string()).collect()
}

#[test]
fn iterators() {
    let mut c = Compiler::new();
    c.add_rule(&rule("rule_1", vec![], constant(true))).unwrap();
    c.add_rule(&rule("rule_2", vec![], constant(false))).unwrap();
    c.add_rule(&rule("rule_3", vec![], constant(true))).unwrap();
    c.add_rule(&rule("rule_4", vec![], constant(false))).unwrap();
    let rules = c.build();

    let mut scanner = Scanner::new(&rules);
    let results = scanner.scan(&[]);

    assert_eq!(results.num_matching_rules(), 2);
    assert_eq!(names(&rules, results.matching_rules()), vec!["rule_1", "rule_3"]);
    assert_eq!(names(&rules, results.non_matching_rules()), vec!["rule_2", "rule_4"]);
}

#[test]
fn matches() {
    let mut c = Compiler::new();
    let any_of_them = vec![
        CondOp::PatternMatch(0),
        CondOp::PatternMatch(1),
        CondOp::Or,
        CondOp::PatternMatch(2),
        CondOp::Or,
    ];
    c.add_rule(&rule("test", vec![literal("$a", "foo"), literal("$b", "bar"), literal("$c", "baz")], any_of_them))
        .unwrap();
    let rules = c.build();

    let mut matches = vec![];
    let results = Scanner::new(&rules).scan(b"foobar");
    for r in results.matching_rules() {
        for p in &rules.rules[*r].patterns {
            for m in &results.matches[*p] {
                matches.push((rules.patterns[*p].identifier.clone(), m.offset..m.offset + m.length));
            }
        }
    }
    assert_eq!(matches, [("$a".to_string(), 0..3), ("$b".to_string(), 3..6)]);
}

#[test]
fn simple_literal() {
    let mut c = Compiler::new();
    c.add_rule(&rule("r", vec![literal("$a", "dummy")], vec![CondOp::PatternMatch(0)])).unwrap();
    let rules = c.build();
    let results = Scanner::new(&rules).scan(b"some dummy data");
    assert_eq!(names(&rules, results.matching_rules()), vec!["r"]);
    let p = rules.rules[0].patterns[0];
    assert_eq!(results.matches[p].len(), 1);
    assert_eq!((results.matches[p][0].offset, results.matches[p][0].length), (5, 5));
}

#[test]
fn global_rule_suppresses_namespace() {
    let mut c = Compiler::new();
    c.add_rule(&rule("before", vec![], constant(true))).unwrap();
    c.new_namespace("ns");
    let mut g = rule("g", vec![], constant(false));
    g.global = true;
    c.add_rule(&rule("early", vec![], constant(true))).unwrap();
    c.add_rule(&g).unwrap();
    c.add_rule(&rule("r", vec![], constant(true))).unwrap();
    let rules = c.build();
    let results = Scanner::new(&rules).scan(b"anything");
    // Neither `g` nor any other rule of `ns` matches; the default namespace
    // is not affected.
    assert_eq!(names(&rules, results.matching_rules()), vec!["before"]);
    assert_eq!(names(&rules, results.non_matching_rules()), vec!["early", "g", "r"]);
}

#[test]
fn passing_global_rule_does_not_suppress() {
    let mut c = Compiler::new();
    let mut g = rule("g", vec![], constant(true));
    g.global = true;
    c.add_rule(&g).unwrap();
    c.add_rule(&rule("r", vec![], constant(true))).unwrap();
    let rules = c.build();
    let results = Scanner::new(&rules).scan(b"");
    assert_eq!(names(&rules, results.matching_rules()), vec!["g", "r"]);
}

#[test]
fn partition_of_rules() {
    let mut c = Compiler::new();
    for i in 0..6 {
        c.add_rule(&rule(&format!("r{i}"), vec![], constant(i % 3 == 0))).unwrap();
    }
    let rules = c.build();
    let results = Scanner::new(&rules).scan(b"x");
    let mut all: Vec<usize> = results.matching_rules().clone();
    all.extend(results.non_matching_rules());
    all.sort();
    assert_eq!(all, vec![0, 1, 2, 3, 4, 5]);
    assert_eq!(results.matching_rules(), &vec![0, 3]);
}

#[test]
fn repeated_scans_agree() {
    let mut c = Compiler::new();
    c.add_rule(&rule("r", vec![literal("$a", "ab")], vec![CondOp::PatternCount(0), CondOp::Const(Value::Int(2)), CondOp::Eq]))
        .unwrap();
    let rules = c.build();
    let mut scanner = Scanner::new(&rules);
    let a = scanner.scan(b"ab ab");
    let b = scanner.scan(b"ab ab");
    assert_eq!(a, b);
    assert_eq!(names(&rules, a.matching_rules()), vec!["r"]);
}

#[test]
fn global_override_applies_to_later_scans() {
    let mut c = Compiler::new();
    c.define_global("threshold", Value::Int(10)).unwrap();
    assert_eq!(c.define_global("threshold", Value::Int(1)), Err(VariableError::AlreadyExists));
    c.add_rule(&rule("big", vec![], vec![CondOp::Filesize, CondOp::Global(0), CondOp::Gt])).unwrap();
    let rules = c.build();
    let mut scanner = Scanner::new(&rules);
    assert_eq!(scanner.scan(b"12345").num_matching_rules(), 0);
    scanner.set_global("threshold", Value::Int(3)).unwrap();
    assert_eq!(scanner.scan(b"12345").num_matching_rules(), 1);
    assert_eq!(scanner.scan(b"12345").num_matching_rules(), 1);
    assert_eq!(scanner.set_global("threshold", Value::Bool(true)), Err(VariableError::InvalidType));
    assert_eq!(scanner.set_global("nope", Value::Int(1)), Err(VariableError::Unknown));
    // The compiled default is untouched.
    assert_eq!(rules.globals, vec![Value::Int(10)]);
    assert_eq!(Scanner::new(&rules).scan(b"12345").num_matching_rules(), 0);
}

#[test]
fn nocase_literal() {
    let mut c = Compiler::new();
    let p = PatternDecl {
        identifier: "$a".to_string(),
        source: PatternSource::Literal { bytes: b"Hello-1".to_vec(), nocase: true },
    };
    c.add_rule(&rule("r", vec![p], vec![CondOp::PatternCount(0)])).unwrap();
    let rules = c.build();
    let results = Scanner::new(&rules).scan(b"hello-1 HELLO-1 hElLo-1 hello_1");
    let offsets: Vec<usize> = results.matches[0].iter().map(|m| m.offset).collect();
    assert_eq!(offsets, vec![0, 8, 16]);
}

#[test]
fn hex_pattern_with_wildcard() {
    let mut c = Compiler::new();
    let tokens = vec![
        HexToken { value: 0x4d, mask: 0xff },
        HexToken { value: 0x00, mask: 0x00 },
        HexToken { value: 0x90, mask: 0xff },
        HexToken { value: 0x00, mask: 0xff },
        HexToken { value: 0x03, mask: 0x0f },
    ];
    let p = PatternDecl { identifier: "$h".to_string(), source: PatternSource::Hex(tokens) };
    c.add_rule(&rule("r", vec![p], vec![CondOp::PatternMatch(0)])).unwrap();
    let rules = c.build();
    assert_eq!(rules.patterns[0].backtrack, 2);
    let results = Scanner::new(&rules).scan(&[0x00, 0x4d, 0x5a, 0x90, 0x00, 0xf3, 0x4d, 0x00, 0x90, 0x00, 0x04]);
    assert_eq!(results.matches[0].len(), 1);
    assert_eq!((results.matches[0][0].offset, results.matches[0][0].length), (1, 5));
}

#[test]
fn division_by_zero_makes_condition_false() {
    let mut c = Compiler::new();
    let cond = vec![CondOp::Const(Value::Int(1)), CondOp::Const(Value::Int(0)), CondOp::Div];
    c.add_rule(&rule("div", vec![], cond)).unwrap();
    let wrap = vec![
        CondOp::Const(Value::Int(i64::MAX)),
        CondOp::Const(Value::Int(1)),
        CondOp::Add,
        CondOp::Const(Value::Int(i64::MIN)),
        CondOp::Eq,
    ];
    c.add_rule(&rule("wrap", vec![], wrap)).unwrap();
    let rules = c.build();
    let results = Scanner::new(&rules).scan(b"");
    assert_eq!(names(&rules, results.matching_rules()), vec!["wrap"]);
}

#[test]
fn compiler_errors() {
    let mut c = Compiler::new();
    c.add_rule(&rule("a", vec![], constant(true))).unwrap();
    assert_eq!(
        c.add_rule(&rule("a", vec![], constant(true))),
        Err(CompileError::DuplicateRule { identifier: "a".to_string() })
    );
    c.new_namespace("other");
    assert!(c.add_rule(&rule("a", vec![], constant(true))).is_ok());
    assert_eq!(c.add_rule(&rule("b", vec![], vec![CondOp::PatternMatch(0)])), Err(CompileError::UnknownPattern { index: 0 }));
    assert_eq!(c.add_rule(&rule("b", vec![], vec![CondOp::Global(3)])), Err(CompileError::UnknownGlobal { index: 3 }));
    c.ban_module("cuckoo", "banned", "do not use cuckoo");
    let mut banned = rule("c", vec![], constant(true));
    banned.imports = vec!["cuckoo".to_string()];
    assert_eq!(
        c.add_rule(&banned),
        Err(CompileError::BannedModule { title: "banned".to_string(), message: "do not use cuckoo".to_string() })
    );
    c.ignore_module("magic");
    let mut ignored = rule("d", vec![], constant(true));
    ignored.imports = vec!["magic".to_string()];
    assert!(c.add_rule(&ignored).is_ok());
    assert_eq!(c.errors().len(), 4);
    assert_eq!(c.warnings().len(), 1);
    let rules = c.build();
    assert_eq!(rules.rules.len(), 2);
    assert_eq!(c.build().rules.len(), 0);
}

#[test]
fn compiler_flags_and_build_reset() {
    let c = _yrx_compiler_create(YRX_DISABLE_INCLUDES | YRX_ERROR_ON_SLOW_PATTERN);
    assert!(!c.flags.enable_includes);
    assert!(c.flags.error_on_slow_pattern);
    assert!(!c.flags.colorize_errors);
    let mut y = YRX_COMPILER::create(YRX_ERROR_ON_SLOW_PATTERN);
    assert_eq!(
        y.inner.add_rule(&rule("s", vec![literal("$a", "x")], vec![CondOp::PatternMatch(0)])),
        Err(CompileError::SlowPattern { identifier: "$a".to_string() })
    );
    y.inner.add_rule(&rule("t", vec![], constant(true))).unwrap();
    let rules = y.build();
    assert_eq!(rules.rules.len(), 1);
    assert_eq!(y.flags, YRX_ERROR_ON_SLOW_PATTERN);
    assert!(y.inner.flags.error_on_slow_pattern);
    assert_eq!(y.build().rules.len(), 0);
}

#[test]
fn match_cap_keeps_pattern_matching() {
    let mut c = Compiler::new();
    c.add_rule(&rule("r", vec![literal("$a", "ab")], vec![CondOp::PatternMatch(0)])).unwrap();
    let rules = c.build();
    let mut scanner = Scanner::new(&rules);
    scanner.set_max_matches_per_pattern(2);
    let results = scanner.scan(b"ab ab ab ab");
    assert_eq!(results.matches[0].len(), 2);
    assert_eq!(results.num_matching_rules(), 1);
}

#[test]
fn error_codes() {
    assert_eq!(CompileError::DuplicateRule { identifier: "a".to_string() }.code(), "E012");
    assert_eq!(CompileError::UnknownGlobal { index: 1 }.code(), "E009");
}

#[test]
fn zero_cap_keeps_pattern_matching() {
    let mut c = Compiler::new();
    c.add_rule(&rule("r", vec![literal("$a", "ab")], vec![CondOp::PatternMatch(0)])).unwrap();
    let rules = c.build();
    let mut scanner = Scanner::new(&rules);
    scanner.set_max_matches_per_pattern(0);
    let results = scanner.scan(b"xx ab");
    assert!(results.matches[0].is_empty());
    assert_eq!(results.matched, vec![true]);
    assert_eq!(results.num_matching_rules(), 1);
}
