//! Velocity-range rules: an ordered table of rules, each mapping an inclusive
//! velocity range to an output pitch. The first enabled rule whose range
//! contains the velocity wins.

use vstd::prelude::*;

verus! {

/// One velocity-range rule. The bounds are not guaranteed ordered: a rule
/// matches a velocity that lies between the smaller and the larger bound,
/// inclusively. A bypassed rule never matches.
#[derive(Clone, Copy, PartialEq, Eq, Structural, Debug)]
pub struct RangeRule {
    pub bypassed: bool,
    pub velocity_lo: u8,
    pub velocity_hi: u8,
    pub output_pitch: u8,
}

/// The smaller of the rule's two bounds.
pub open spec fn rule_min(rule: RangeRule) -> u8 {
    if rule.velocity_lo <= rule.velocity_hi {
        rule.velocity_lo
    } else {
        rule.velocity_hi
    }
}

/// The larger of the rule's two bounds.
pub open spec fn rule_max(rule: RangeRule) -> u8 {
    if rule.velocity_lo <= rule.velocity_hi {
        rule.velocity_hi
    } else {
        rule.velocity_lo
    }
}

/// Whether `rule` matches `velocity`: the rule is enabled and the velocity
/// lies in the rule's inclusive range, whichever order its bounds are in.
pub open spec fn rule_matches(rule: RangeRule, velocity: u8) -> bool {
    &&& !rule.bypassed
    &&& rule_min(rule) <= velocity
    &&& velocity <= rule_max(rule)
}

/// The result of looking `velocity` up in `rules`: the output pitch of the
/// first matching rule in table order, or `None` when no rule matches.
pub open spec fn table_match(rules: Seq<RangeRule>, velocity: u8) -> Option<u8>
    decreases rules.len(),
{
    if rules.len() == 0 {
        None
    } else if rule_matches(rules[0], velocity) {
        Some(rules[0].output_pitch)
    } else {
        table_match(rules.drop_first(), velocity)
    }
}

/// Tests one rule against a velocity; returns the rule's output pitch when it
/// matches.
pub fn matches_range(velocity: u8, rule: &RangeRule) -> (r: Option<u8>)
    ensures
        r == (if rule_matches(*rule, velocity) {
            Some(rule.output_pitch)
        } else {
            None::<u8>
        }),
{
    let lo = if rule.velocity_lo <= rule.velocity_hi {
        rule.velocity_lo
    } else {
        rule.velocity_hi
    };
    let hi = if rule.velocity_lo <= rule.velocity_hi {
        rule.velocity_hi
    } else {
        rule.velocity_lo
    };
    if !rule.bypassed && lo <= velocity && velocity <= hi {
        Some(rule.output_pitch)
    } else {
        None
    }
}

/// The rule every table starts from: bypassed, covering the full velocity
/// range, mapping to the middle pitch.
pub open spec fn default_rule() -> RangeRule {
    RangeRule { bypassed: true, velocity_lo: 0, velocity_hi: 127, output_pitch: 60 }
}

impl Default for RangeRule {
    /// A fresh rule: bypassed, full velocity range, output pitch 60.
    fn default() -> (rule: RangeRule)
        ensures
            rule == default_rule(),
    {
        RangeRule { bypassed: true, velocity_lo: 0, velocity_hi: 127, output_pitch: 60 }
    }
}

/// An ordered table of velocity-range rules. Priority is table order:
/// of two overlapping enabled rules, the earlier one wins.
pub struct RangeTable {
    pub rules: Vec<RangeRule>,
}

impl Default for RangeTable {
    /// A fresh table: four rules, each with the default (bypassed) values.
    fn default() -> (table: RangeTable)
        ensures
            table@.len() == 4,
            forall|i: int| 0 <= i < 4 ==> table@[i] == default_rule(),
    {
        let mut rules: Vec<RangeRule> = Vec::new();
        let mut i: usize = 0;
        while i < 4
            invariant
                rules@.len() == i,
                i <= 4,
                forall|j: int| 0 <= j < i ==> rules@[j] == default_rule(),
            decreases 4 - i,
        {
            rules.push(RangeRule::default());
            i += 1;
        }
        RangeTable { rules }
    }
}

impl View for RangeTable {
    type V = Seq<RangeRule>;

    open spec fn view(&self) -> Seq<RangeRule> {
        self.rules@
    }
}

impl RangeTable {
    /// Builds a table from a rule list; the list order is the priority order.
    pub fn new(rules: Vec<RangeRule>) -> (table: RangeTable)
        ensures
            table@ == rules@,
    {
        RangeTable { rules }
    }

    /// Looks a velocity up in the table: returns the output pitch of the
    /// first enabled rule whose inclusive range contains it, or `None` when
    /// no rule matches.
    pub fn get_remapped_pitch(&self, velocity: u8) -> (r: Option<u8>)
        ensures
            r == table_match(self@, velocity),
    {
        let n = self.rules.len();
        let mut i: usize = 0;
        while i < n
            invariant
                0 <= i <= n,
                n == self@.len(),
                forall|j: int| 0 <= j < i ==> !rule_matches(self@[j], velocity),
            decreases n - i,
        {
            let r = matches_range(velocity, &self.rules[i]);
            if r.is_some() {
                proof {
                    lemma_first_match_wins(self@, velocity, i as int);
                }
                return r;
            }
            i += 1;
        }
        proof {
            lemma_no_rule_matches(self@, velocity);
        }
        None
    }
}

/// First-match-wins: if rule `i` matches the velocity and no earlier rule
/// does, the table lookup returns rule `i`'s output pitch. In particular, of
/// two overlapping enabled rules the earlier-indexed one always wins.
pub proof fn lemma_first_match_wins(rules: Seq<RangeRule>, velocity: u8, i: int)
    requires
        0 <= i < rules.len(),
        rule_matches(rules[i], velocity),
        forall|j: int| 0 <= j < i ==> !rule_matches(rules[j], velocity),
    ensures
        table_match(rules, velocity) == Some(rules[i].output_pitch),
    decreases i,
{
    if i > 0 {
        let rest = rules.drop_first();
        assert(rest[i - 1] == rules[i]);
        assert forall|j: int| 0 <= j < i - 1 implies !rule_matches(rest[j], velocity) by {
            assert(rest[j] == rules[j + 1]);
        }
        lemma_first_match_wins(rest, velocity, i - 1);
    }
}

/// No-match: when no rule in the table matches the velocity — every rule is
/// bypassed or has the velocity outside its range — the lookup returns `None`.
pub proof fn lemma_no_rule_matches(rules: Seq<RangeRule>, velocity: u8)
    requires
        forall|j: int| 0 <= j < rules.len() ==> !rule_matches(rules[j], velocity),
    ensures
        table_match(rules, velocity) is None,
    decreases rules.len(),
{
    if rules.len() > 0 {
        let rest = rules.drop_first();
        assert forall|j: int| 0 <= j < rest.len() implies !rule_matches(rest[j], velocity) by {
            assert(rest[j] == rules[j + 1]);
        }
        lemma_no_rule_matches(rest, velocity);
    }
}

} // verus!
