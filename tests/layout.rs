use yara_x::condition::{CondOp, Value};
use yara_x::layout::ConditionLayoutBuilder;
use yara_x::rules::{Compiler, RuleDecl};

#[test]
fn rules_are_grouped_by_function() {
    let mut b = ConditionLayoutBuilder::new();
    b.rules_per_func(2);
    b.new_namespace();
    for id in 0..5 {
        b.start_rule(id, id == 1);
    }
    b.new_namespace();
    b.start_rule(5, false);
    let l = b.build();
    assert_eq!(l.rules, vec![0, 1, 2, 3, 4, 5]);
    assert_eq!(l.global, vec![false, true, false, false, false, false]);
    assert_eq!(l.rule_func_ends, vec![2, 4, 5, 6]);
    assert_eq!(l.block_ends, vec![3, 4]);
    assert_eq!(l.namespace_func_ends, vec![2]);
}

#[test]
fn namespaces_are_grouped_by_function() {
    let mut b = ConditionLayoutBuilder::new();
    b.namespaces_per_func(1);
    for id in 0..3 {
        b.new_namespace();
        b.start_rule(id, false);
    }
    let l = b.build();
    assert_eq!(l.rule_func_ends, vec![1, 2, 3]);
    assert_eq!(l.block_ends, vec![1, 2, 3]);
    assert_eq!(l.namespace_func_ends, vec![1, 2, 3]);
}

#[test]
fn compiled_layout_follows_namespaces() {
    let t = vec![CondOp::Const(Value::Bool(true))];
    let decl = |name: &str| RuleDecl {
        identifier: name.to_string(),
        global: false,
        imports: vec![],
        patterns: vec![],
        condition: t.clone(),
    };
    let mut c = Compiler::new();
    c.add_rule(&decl("a")).unwrap();
    c.new_namespace("x");
    c.add_rule(&decl("b")).unwrap();
    c.new_namespace("default");
    c.add_rule(&decl("c")).unwrap();
    let rules = c.build();
    assert_eq!(rules.layout.rules, vec![0, 2, 1]);
    assert_eq!(rules.layout.block_ends, vec![1, 2]);
}
