//! How the conditions of a rule set are grouped into functions of the
//! condition module.
//!
//! The module's entry calls one function per group of namespaces; each of
//! those holds one block per namespace; each block calls, in order, the
//! functions that hold the conditions of up to `rules_per_func` rules. A
//! rules function returns early when a global rule fails, and its block
//! then exits, so that no later rule of the namespace runs. Grouping does
//! not change what matches; it trades the number of functions against
//! their size.

use vstd::prelude::*;

verus! {

/// The grouping of a rule set's conditions. Each `*_ends` list holds where
/// each group ends, as an index into the list below it.
#[derive(Debug, Clone, PartialEq, Eq)]
pub struct ConditionLayout {
    /// The rules, in the order their conditions were emitted.
    pub rules: Vec<usize>,
    /// Whether each of those rules is global.
    pub global: Vec<bool>,
    /// The end of each rules function, in `rules`.
    pub rule_func_ends: Vec<usize>,
    /// The end of each namespace block, in `rule_func_ends`.
    pub block_ends: Vec<usize>,
    /// The end of each namespaces function, in `block_ends`.
    pub namespace_func_ends: Vec<usize>,
}

/// `ends` rises strictly, each step by at most `max`, and stays within
/// `1..=n`.
pub open spec fn groups_ok(ends: Seq<usize>, n: nat, max: nat) -> bool {
    &&& forall|k: int| 0 <= k < ends.len() ==> 0 < #[trigger] ends[k] <= n
    &&& forall|k: int| 0 < k < ends.len() ==> ends[k - 1] < #[trigger] ends[k] && ends[k] - ends[k - 1] <= max
    &&& ends.len() > 0 ==> ends[0] <= max
}

/// The last end of `ends`, or zero.
pub open spec fn last_end(ends: Seq<usize>) -> nat {
    if ends.len() == 0 {
        0
    } else {
        ends.last() as nat
    }
}

/// Builds a [`ConditionLayout`] while rules are emitted.
pub struct ConditionLayoutBuilder {
    pub layout: ConditionLayout,
    /// Rules in the open rules function.
    pub num_rules: usize,
    /// Namespaces in the open namespaces function.
    pub num_namespaces: usize,
    pub namespaces_per_func: usize,
    pub rules_per_func: usize,
}

impl ConditionLayoutBuilder {
    /// The most rules a rules function holds.
    pub open spec fn rule_cap(&self) -> nat {
        if self.rules_per_func == 0 { 1 } else { self.rules_per_func as nat }
    }

    /// The most namespace blocks a namespaces function holds.
    pub open spec fn namespace_cap(&self) -> nat {
        if self.namespaces_per_func == 0 { 1 } else { self.namespaces_per_func as nat }
    }

    /// The rules emitted so far.
    pub open spec fn emitted(&self) -> Seq<usize> {
        self.layout.rules@
    }

    pub open spec fn wf(&self) -> bool {
        let l = self.layout;
        &&& l.global@.len() == l.rules@.len()
        &&& groups_ok(l.rule_func_ends@, l.rules@.len(), self.rule_cap())
        &&& groups_ok(l.block_ends@, l.rule_func_ends@.len(), l.rule_func_ends@.len() as nat)
        &&& forall|k: int| 0 <= k < l.namespace_func_ends@.len() ==> #[trigger] l.namespace_func_ends@[k] <= l.block_ends@.len()
        &&& forall|k: int| 0 < k < l.namespace_func_ends@.len() ==> l.namespace_func_ends@[k - 1] <= #[trigger] l.namespace_func_ends@[k]
        &&& last_end(l.namespace_func_ends@) <= l.block_ends@.len()
        &&& last_end(l.block_ends@) <= l.rule_func_ends@.len()
        &&& self.num_rules == l.rules@.len() - last_end(l.rule_func_ends@)
        &&& self.num_rules <= self.rule_cap()
        &&& self.num_namespaces <= self.namespace_cap()
    }

    /// Creates a builder that puts ten rules in each rules function and ten
    /// namespaces in each namespaces function.
    pub fn new() -> (r: Self)
        ensures
            r.wf(),
            r.emitted().len() == 0,
            r.rules_per_func == 10,
            r.namespaces_per_func == 10,
    {
        ConditionLayoutBuilder {
            layout: ConditionLayout {
                rules: Vec::new(),
                global: Vec::new(),
                rule_func_ends: Vec::new(),
                block_ends: Vec::new(),
                namespace_func_ends: Vec::new(),
            },
            num_rules: 0,
            num_namespaces: 0,
            namespaces_per_func: 10,
            rules_per_func: 10,
        }
    }

    /// Nothing has been emitted yet.
    pub open spec fn fresh(&self) -> bool {
        &&& self.layout.rules@.len() == 0
        &&& self.layout.rule_func_ends@.len() == 0
        &&& self.layout.block_ends@.len() == 0
        &&& self.layout.namespace_func_ends@.len() == 0
        &&& self.num_rules == 0
        &&& self.num_namespaces == 0
    }

    /// Sets how many namespaces each namespaces function holds.
    pub fn namespaces_per_func(&mut self, n: usize)
        requires
            old(self).wf(),
            old(self).fresh(),
        ensures
            final(self).wf(),
            final(self).fresh(),
            final(self).namespaces_per_func == n,
            final(self).rules_per_func == old(self).rules_per_func,
    {
        self.namespaces_per_func = n;
    }

    /// Sets how many rules each rules function holds.
    pub fn rules_per_func(&mut self, n: usize)
        requires
            old(self).wf(),
            old(self).fresh(),
        ensures
            final(self).wf(),
            final(self).fresh(),
            final(self).rules_per_func == n,
            final(self).namespaces_per_func == old(self).namespaces_per_func,
    {
        self.rules_per_func = n;
    }

    /// Closes the open rules function, if it holds any rule.
    fn finish_rule_func(&mut self)
        requires
            old(self).wf(),
        ensures
            final(self).wf(),
            final(self).num_rules == 0,
            final(self).emitted() == old(self).emitted(),
            final(self).layout.global == old(self).layout.global,
            final(self).num_namespaces == old(self).num_namespaces,
            final(self).rules_per_func == old(self).rules_per_func,
            final(self).namespaces_per_func == old(self).namespaces_per_func,
            final(self).layout.block_ends == old(self).layout.block_ends,
            final(self).layout.namespace_func_ends == old(self).layout.namespace_func_ends,
            last_end(final(self).layout.rule_func_ends@) == final(self).layout.rules@.len(),
    {
        if self.num_rules > 0 {
            let end = self.layout.rules.len();
            self.layout.rule_func_ends.push(end);
            self.num_rules = 0;
        }
    }

    /// Closes the open namespace block, if it calls any rules function.
    fn finish_namespace_block(&mut self)
        requires
            old(self).wf(),
        ensures
            final(self).wf(),
            final(self).num_rules == old(self).num_rules,
            final(self).emitted() == old(self).emitted(),
            final(self).layout.global == old(self).layout.global,
            final(self).layout.rule_func_ends == old(self).layout.rule_func_ends,
            final(self).num_namespaces == old(self).num_namespaces,
            final(self).rules_per_func == old(self).rules_per_func,
            final(self).namespaces_per_func == old(self).namespaces_per_func,
            final(self).layout.namespace_func_ends == old(self).layout.namespace_func_ends,
            last_end(final(self).layout.block_ends@) == final(self).layout.rule_func_ends@.len(),
    {
        let n = self.layout.rule_func_ends.len();
        let last = if self.layout.block_ends.len() == 0 { 0 } else { self.layout.block_ends[self.layout.block_ends.len() - 1] };
        if n > last {
            self.layout.block_ends.push(n);
        }
    }

    /// Closes the open namespaces function; the entry calls it.
    fn finish_namespace_func(&mut self)
        requires
            old(self).wf(),
        ensures
            final(self).wf(),
            final(self).num_rules == old(self).num_rules,
            final(self).num_namespaces == old(self).num_namespaces,
            final(self).emitted() == old(self).emitted(),
            final(self).layout.global == old(self).layout.global,
            final(self).layout.rule_func_ends == old(self).layout.rule_func_ends,
            final(self).layout.block_ends == old(self).layout.block_ends,
            final(self).rules_per_func == old(self).rules_per_func,
            final(self).namespaces_per_func == old(self).namespaces_per_func,
            final(self).layout.namespace_func_ends@.len() > 0,
            last_end(final(self).layout.namespace_func_ends@) == final(self).layout.block_ends@.len(),
    {
        let n = self.layout.block_ends.len();
        self.layout.namespace_func_ends.push(n);
    }

    /// Emits a rule into the open rules function, first closing that
    /// function when it is full.
    pub fn start_rule(&mut self, rule_id: usize, global: bool)
        requires
            old(self).wf(),
        ensures
            final(self).wf(),
            final(self).emitted() == old(self).emitted().push(rule_id),
            final(self).layout.global@ == old(self).layout.global@.push(global),
            final(self).rules_per_func == old(self).rules_per_func,
            final(self).namespaces_per_func == old(self).namespaces_per_func,
    {
        if self.num_rules >= self.rules_per_func && self.num_rules > 0 {
            self.finish_rule_func();
        }
        let ghost before = self.layout.rule_func_ends@;
        self.num_rules = self.num_rules + 1;
        self.layout.rules.push(rule_id);
        self.layout.global.push(global);
        proof {
            assert(self.layout.rule_func_ends@ == before);
        }
    }

    /// Starts a namespace: closes the open rules function and namespace
    /// block, and the namespaces function when it is full.
    pub fn new_namespace(&mut self)
        requires
            old(self).wf(),
        ensures
            final(self).wf(),
            final(self).emitted() == old(self).emitted(),
            final(self).layout.global == old(self).layout.global,
            final(self).num_rules == 0,
            final(self).rules_per_func == old(self).rules_per_func,
            final(self).namespaces_per_func == old(self).namespaces_per_func,
            last_end(final(self).layout.rule_func_ends@) == final(self).layout.rules@.len(),
            last_end(final(self).layout.block_ends@) == final(self).layout.rule_func_ends@.len(),
    {
        self.finish_rule_func();
        self.finish_namespace_block();
        if self.num_namespaces >= self.namespaces_per_func && self.num_namespaces > 0 {
            self.finish_namespace_func();
            self.num_namespaces = 0;
        }
        self.num_namespaces = self.num_namespaces + 1;
    }

    /// Closes every open group and returns the layout.
    #[verifier::rlimit(40)]
    pub fn build(self) -> (r: ConditionLayout)
        requires
            self.wf(),
        ensures
            r.rules@ == self.emitted(),
            r.global@ == self.layout.global@,
            groups_ok(r.rule_func_ends@, r.rules@.len(), self.rule_cap()),
            last_end(r.rule_func_ends@) == r.rules@.len(),
            groups_ok(r.block_ends@, r.rule_func_ends@.len(), r.rule_func_ends@.len() as nat),
            last_end(r.block_ends@) == r.rule_func_ends@.len(),
            r.namespace_func_ends@.len() > 0,
            last_end(r.namespace_func_ends@) == r.block_ends@.len(),
    {
        let mut b = self;
        b.finish_rule_func();
        let ghost rf = b.layout.rule_func_ends@;
        b.finish_namespace_block();
        assert(b.layout.rule_func_ends@ == rf);
        b.finish_namespace_func();
        b.layout
    }
}

} // verus!
