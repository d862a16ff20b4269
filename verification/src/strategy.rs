//! Rule selection: the strategy that picks which rule the engine
//! applies next.  The engine reports after each application whether new
//! facts were derived; a strategy answers with the next rule index, or
//! with nothing once applying every rule in turn derives nothing new.

use vstd::prelude::*;
use crate::model::Rule;

verus! {

/// A strategy for rule execution: the order in which rules are applied.
pub trait RuleSelectionStrategy: Sized {
    /// How many rules the strategy selects among.
    spec fn spec_num_rules(&self) -> nat;

    /// Create a new strategy for the given rules.
    fn new(rules: Vec<Rule>) -> (r: Self)
        ensures
            r.spec_num_rules() == rules@.len();

    /// The index of the next rule to apply, given whether the previous
    /// application derived new facts; `None` once execution should stop.
    fn next_rule(&mut self, new_derivations: Option<bool>) -> (r: Option<usize>)
        ensures
            final(self).spec_num_rules() == old(self).spec_num_rules(),
            match r {
                Some(i) => i < old(self).spec_num_rules(),
                None => true,
            };
}

/// Apply the rules in a fixed cycle until a whole round derives nothing.
pub struct RoundRobinStrategy {
    num_rules: usize,
    current: usize,
    rounds_without_derivation: usize,
}

impl RoundRobinStrategy {
    /// The strategy can still hand out rules.
    pub closed spec fn live(&self) -> bool {
        self.num_rules > 0 && self.rounds_without_derivation < self.num_rules
    }
}

impl RuleSelectionStrategy for RoundRobinStrategy {
    closed spec fn spec_num_rules(&self) -> nat {
        self.num_rules as nat
    }

    fn new(rules: Vec<Rule>) -> (r: RoundRobinStrategy) {
        RoundRobinStrategy {
            num_rules: rules.len(),
            current: 0,
            rounds_without_derivation: 0,
        }
    }

    fn next_rule(&mut self, new_derivations: Option<bool>) -> (r: Option<usize>) {
        match new_derivations {
            Some(true) => {
                self.rounds_without_derivation = 0;
            },
            Some(false) => {
                if self.rounds_without_derivation < self.num_rules {
                    self.rounds_without_derivation = self.rounds_without_derivation + 1;
                }
            },
            None => (),
        }
        if self.num_rules == 0 || self.rounds_without_derivation >= self.num_rules {
            return None;
        }
        let r = if self.current < self.num_rules {
            self.current
        } else {
            0
        };
        self.current = if r + 1 >= self.num_rules {
            0
        } else {
            r + 1
        };
        Some(r)
    }
}

} // verus!
