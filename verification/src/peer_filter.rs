//! Ordered allow/deny rules over IP networks that decide which peers may connect.

use crate::ip::{spec_ip_net_text, spec_parse_ip_net, IpAddr, IpNet};
use crate::text::{
    all_ascii_capitals, is_first_index_of, lemma_split_at_first, spec_str_to_uppercase,
    split_at_first, split_once, text_eq, to_uppercase,
};
use core::cmp::Ordering;
use vstd::prelude::*;

verus! {

/// Actions of a filter rule.
#[derive(Clone, Copy, Debug, PartialEq, Eq, Structural, Hash)]
pub enum PeerAction {
    /// Allow connections from the subnet.
    Allow,
    /// Deny connections from the subnet.
    Deny,
}

/// Why a rule text could not be parsed.
#[derive(Clone, Copy, Debug, PartialEq, Eq, Structural)]
pub enum RuleParseError {
    /// The text has no `:` between action and target.
    MissingSeparator,
    /// The action is neither `ALLOW` nor `DENY`, in any case.
    InvalidAction,
    /// The target is not a network in CIDR notation.
    InvalidTarget,
}

/// The text of an action in a rule text.
pub open spec fn action_text(action: PeerAction) -> Seq<char> {
    match action {
        PeerAction::Allow => "ALLOW"@,
        PeerAction::Deny => "DENY"@,
    }
}

/// The action that an upper-cased action text names.
pub open spec fn action_from_upper(text: Seq<char>) -> Option<PeerAction> {
    if text == "ALLOW"@ {
        Some(PeerAction::Allow)
    } else if text == "DENY"@ {
        Some(PeerAction::Deny)
    } else {
        None
    }
}

impl PeerAction {
    /// The action named by an action text that is already in upper case.
    pub fn from_upper_text(text: &str) -> (r: Option<PeerAction>)
        ensures
            r == action_from_upper(text@),
    {
        if text_eq(text, "ALLOW") {
            Some(PeerAction::Allow)
        } else if text_eq(text, "DENY") {
            Some(PeerAction::Deny)
        } else {
            None
        }
    }
}

/// A filter rule applying to a single IP subnet.
#[derive(Clone, Copy, Debug, PartialEq, Eq, Structural, Hash)]
pub struct FilterRule {
    action: PeerAction,
    target: IpNet,
}

/// The text of a rule, such as `ALLOW:0.0.0.0/0`.
pub open spec fn rule_text(rule: FilterRule) -> Seq<char> {
    action_text(rule.spec_action()) + ":"@ + spec_ip_net_text(rule.spec_target())
}

/// The rule that a rule text describes: an action, a `:`, and a network in CIDR
/// notation; the action is `ALLOW` or `DENY` once upper-cased.
pub open spec fn rule_from_text(text: Seq<char>) -> Result<FilterRule, RuleParseError> {
    match split_at_first(text, ':') {
        None => Err(RuleParseError::MissingSeparator),
        Some((action, target)) => match action_from_upper(spec_str_to_uppercase(action)) {
            None => Err(RuleParseError::InvalidAction),
            Some(a) => match spec_parse_ip_net(target) {
                None => Err(RuleParseError::InvalidTarget),
                Some(net) => Ok(FilterRule::spec_new(a, net)),
            },
        },
    }
}

/// The evaluation rank of a rule: longer prefixes first, and at equal prefix length
/// `Allow` before `Deny`.
pub open spec fn rank(rule: FilterRule) -> int {
    2 * rule.spec_target().spec_prefix_len() + if rule.spec_action() == PeerAction::Allow {
        1int
    } else {
        0int
    }
}

/// The verdict of one rule on an address: its action if its network contains the address.
pub open spec fn rule_verdict(rule: FilterRule, ip: IpAddr) -> Option<PeerAction> {
    if rule.spec_target().spec_contains(ip) {
        Some(rule.spec_action())
    } else {
        None
    }
}

impl FilterRule {
    pub closed spec fn spec_new(action: PeerAction, target: IpNet) -> FilterRule {
        FilterRule { action, target }
    }

    /// The rule built from an action and a target has that action and that target.
    pub proof fn lemma_spec_new(action: PeerAction, target: IpNet)
        ensures
            FilterRule::spec_new(action, target).spec_action() == action,
            FilterRule::spec_new(action, target).spec_target() == target,
    {
    }

    /// A rule is determined by its action and its target.
    pub proof fn lemma_ext(self)
        ensures
            self == FilterRule::spec_new(self.spec_action(), self.spec_target()),
    {
    }

    pub closed spec fn spec_action(&self) -> PeerAction {
        self.action
    }

    pub closed spec fn spec_target(&self) -> IpNet {
        self.target
    }

    /// Create a new filter rule.
    pub fn new(action: PeerAction, target: IpNet) -> (r: FilterRule)
        ensures
            r == FilterRule::spec_new(action, target),
            r.spec_action() == action,
            r.spec_target() == target,
    {
        FilterRule { action, target }
    }

    /// The action to perform.
    #[verifier::when_used_as_spec(spec_action)]
    pub fn action(&self) -> (r: PeerAction)
        ensures
            r == self.spec_action(),
    {
        self.action
    }

    /// The targeted IP subnet.
    #[verifier::when_used_as_spec(spec_target)]
    pub fn target(&self) -> (r: IpNet)
        ensures
            r == self.spec_target(),
    {
        self.target
    }

    /// Parse a rule from a rule string as `to_string` writes it, such as `DENY:10.0.0.0/8`.
    /// The action is read in any case.
    pub fn from_string(text: &str) -> (r: Result<FilterRule, RuleParseError>)
        ensures
            r == rule_from_text(text@),
            forall|rule: FilterRule|
                rule.spec_target().wf() && text@ == rule_text(rule) ==> r == Ok::<
                    FilterRule,
                    RuleParseError,
                >(rule),
    {
        let r = match split_once(text, ':') {
            None => Err(RuleParseError::MissingSeparator),
            Some((action, target)) => {
                let upper = to_uppercase(action);
                match PeerAction::from_upper_text(upper.as_str()) {
                    None => Err(RuleParseError::InvalidAction),
                    Some(a) => match IpNet::parse(target) {
                        None => Err(RuleParseError::InvalidTarget),
                        Some(net) => Ok(FilterRule { action: a, target: net }),
                    },
                }
            },
        };
        assert forall|rule: FilterRule|
            rule.spec_target().wf() && text@ == rule_text(rule) implies r == Ok::<
                FilterRule,
                RuleParseError,
            >(rule) by {
            reveal_strlit("ALLOW");
            reveal_strlit("DENY");
            reveal_strlit(":");
            let at = action_text(rule.action);
            let n = at.len() as int;
            assert(is_first_index_of(text@, ':', n));
            lemma_split_at_first(text@, ':', n);
            assert(text@.take(n) =~= at);
            assert(text@.skip(n + 1) =~= spec_ip_net_text(rule.target));
            assert(all_ascii_capitals(at));
        }
        r
    }

    /// Convert this rule to a string like "ALLOW:0.0.0.0/0".
    pub fn to_string(&self) -> (r: String)
        ensures
            r@ == rule_text(*self),
    {
        let action = match self.action {
            PeerAction::Allow => "ALLOW",
            PeerAction::Deny => "DENY",
        };
        let mut text = String::from_str(action);
        text.append(":");
        let target = self.target.to_text();
        text.append(target.as_str());
        text
    }

    /// Evaluate this rule: its action if its network contains `ip`.
    pub fn evaluate(&self, ip: &IpAddr) -> (r: Option<PeerAction>)
        ensures
            r == rule_verdict(*self, *ip),
    {
        if self.target.contains(ip) {
            Some(self.action)
        } else {
            None
        }
    }
}

/// `sorted` with `rule` inserted after every rule of at least its rank.
pub open spec fn insert_by_rank(sorted: Seq<FilterRule>, rule: FilterRule) -> Seq<FilterRule>
    decreases sorted.len(),
{
    if sorted.len() == 0 {
        seq![rule]
    } else if rank(sorted.last()) >= rank(rule) {
        sorted.push(rule)
    } else {
        insert_by_rank(sorted.drop_last(), rule).push(sorted.last())
    }
}

/// The rules in the order in which they are evaluated: by rank, highest first; rules
/// of equal rank keep the order in which they were added.
pub open spec fn evaluation_order(rules: Seq<FilterRule>) -> Seq<FilterRule>
    decreases rules.len(),
{
    if rules.len() == 0 {
        Seq::empty()
    } else {
        insert_by_rank(evaluation_order(rules.drop_last()), rules.last())
    }
}

/// The action of the first rule of `order` whose network contains `ip`.
pub open spec fn first_match(order: Seq<FilterRule>, ip: IpAddr) -> Option<PeerAction>
    decreases order.len(),
{
    if order.len() == 0 {
        None
    } else {
        match rule_verdict(order[0], ip) {
            Some(action) => Some(action),
            None => first_match(order.drop_first(), ip),
        }
    }
}

/// The action for a peer: that of the first matching rule in evaluation order, and
/// `Deny` when no rule matches.
pub open spec fn filter_verdict(rules: Seq<FilterRule>, ip: IpAddr) -> PeerAction {
    match first_match(evaluation_order(rules), ip) {
        Some(action) => action,
        None => PeerAction::Deny,
    }
}

/// Provides facilities for filtering peer connections against a configurable ruleset.
#[derive(Debug)]
pub struct PeerFilter {
    rules: Vec<FilterRule>,
}

impl Clone for PeerFilter {
    fn clone(&self) -> (r: Self)
        ensures
            r@ == self@,
    {
        let r = PeerFilter { rules: self.rules.clone() };
        assert(r.rules@ =~= self.rules@);
        r
    }
}

impl View for PeerFilter {
    type V = Seq<FilterRule>;

    /// The rules in the order in which they were added.
    closed spec fn view(&self) -> Seq<FilterRule> {
        self.rules@
    }
}

impl Default for PeerFilter {
    /// Construct a PeerFilter instance with no rules.
    fn default() -> (r: Self)
        ensures
            r@ == Seq::<FilterRule>::empty(),
    {
        PeerFilter { rules: Vec::new() }
    }
}

/// The evaluation rank of a rule.
fn evaluation_rank(rule: &FilterRule) -> (r: usize)
    ensures
        r == rank(*rule),
{
    let prefix_len = rule.target.prefix_len();
    let doubled = (prefix_len as usize) * 2;
    match rule.action {
        PeerAction::Allow => doubled + 1,
        PeerAction::Deny => doubled,
    }
}

/// Inserts `rule` into `sorted` after every rule of at least its rank.
fn insert_ranked(sorted: &mut Vec<FilterRule>, rule: FilterRule)
    ensures
        final(sorted)@ == insert_by_rank(old(sorted)@, rule),
{
    let ghost s = sorted@;
    let rule_rank = evaluation_rank(&rule);
    let mut p = sorted.len();
    assert(s.take(p as int) =~= s);
    assert(s.skip(p as int) =~= Seq::<FilterRule>::empty());
    while p > 0 && evaluation_rank(&sorted[p - 1]) < rule_rank
        invariant
            sorted@ == s,
            p <= s.len(),
            rule_rank == rank(rule),
            insert_by_rank(s, rule) == insert_by_rank(s.take(p as int), rule) + s.skip(p as int),
        decreases p,
    {
        assert(s.take(p as int).drop_last() =~= s.take(p - 1));
        assert(s.take(p as int).last() == s[p - 1]);
        assert(insert_by_rank(s.take(p - 1), rule).push(s[p - 1]) + s.skip(p as int) =~= insert_by_rank(
            s.take(p - 1),
            rule,
        ) + s.skip(p - 1));
        p = p - 1;
    }
    if p == 0 {
        assert(s.take(0) =~= Seq::<FilterRule>::empty());
    } else {
        assert(s.take(p as int).last() == s[p - 1]);
    }
    sorted.insert(p, rule);
    assert(sorted@ =~= insert_by_rank(s, rule));
}

impl PeerFilter {
    /// Insert a new rule to the ruleset, unless an equal rule is already there.
    /// Returns whether the rule was inserted.
    pub fn add(&mut self, rule: FilterRule) -> (added: bool)
        ensures
            added == !old(self)@.contains(rule),
            added ==> final(self)@ == old(self)@.push(rule),
            !added ==> final(self)@ == old(self)@,
    {
        let n = self.rules.len();
        let mut i: usize = 0;
        while i < n
            invariant
                n == self.rules@.len(),
                i <= n,
                forall|j: int| 0 <= j < i ==> self.rules@[j] != rule,
            decreases n - i,
        {
            if self.rules[i] == rule {
                return false;
            }
            i = i + 1;
        }
        self.rules.push(rule);
        true
    }

    /// Remove every rule equal to `rule` from the ruleset.
    pub fn remove(&mut self, rule: &FilterRule)
        ensures
            final(self)@ == old(self)@.filter(|x: FilterRule| x != *rule),
    {
        let ghost pred = |x: FilterRule| x != *rule;
        let n = self.rules.len();
        let mut kept: Vec<FilterRule> = Vec::new();
        let mut i: usize = 0;
        while i < n
            invariant
                n == self.rules@.len(),
                i <= n,
                pred == (|x: FilterRule| x != *rule),
                kept@ == self.rules@.take(i as int).filter(pred),
            decreases n - i,
        {
            proof {
                reveal_with_fuel(Seq::<_>::filter, 1);
                assert(self.rules@.take(i + 1).drop_last() =~= self.rules@.take(i as int));
            }
            let r = self.rules[i];
            if r != *rule {
                kept.push(r);
            }
            i = i + 1;
        }
        assert(self.rules@.take(n as int) =~= self.rules@);
        self.rules = kept;
    }

    /// The number of rules in the ruleset.
    pub fn len(&self) -> (n: usize)
        ensures
            n == self@.len(),
    {
        self.rules.len()
    }

    /// The ruleset in order of evaluation.
    pub fn iter(&self) -> (ordered: Vec<FilterRule>)
        ensures
            ordered@ == evaluation_order(self@),
    {
        let n = self.rules.len();
        let mut ordered: Vec<FilterRule> = Vec::new();
        let mut i: usize = 0;
        while i < n
            invariant
                n == self.rules@.len(),
                i <= n,
                ordered@ == evaluation_order(self.rules@.take(i as int)),
            decreases n - i,
        {
            assert(self.rules@.take(i + 1).drop_last() =~= self.rules@.take(i as int));
            insert_ranked(&mut ordered, self.rules[i]);
            i = i + 1;
        }
        assert(self.rules@.take(n as int) =~= self.rules@);
        ordered
    }

    /// Evaluate all rules for a peer address: the action of the first rule in
    /// evaluation order whose network contains `ip`, and `Deny` if there is none.
    pub fn evaluate(&self, ip: &IpAddr) -> (action: PeerAction)
        ensures
            action == filter_verdict(self@, *ip),
    {
        let ordered = self.iter();
        let n = ordered.len();
        let mut i: usize = 0;
        assert(ordered@.skip(0) =~= ordered@);
        while i < n
            invariant
                n == ordered@.len(),
                i <= n,
                ordered@ == evaluation_order(self@),
                first_match(ordered@, *ip) == first_match(ordered@.skip(i as int), *ip),
            decreases n - i,
        {
            assert(ordered@.skip(i as int)[0] == ordered@[i as int]);
            assert(ordered@.skip(i as int).drop_first() =~= ordered@.skip(i + 1));
            if let Some(action) = ordered[i].evaluate(ip) {
                return action;
            }
            i = i + 1;
        }
        assert(ordered@.skip(n as int) =~= Seq::<FilterRule>::empty());
        PeerAction::Deny
    }

    /// Compares two rules by evaluation order: `Less` when `a` is evaluated before `b`.
    pub fn filter_rule_cmp(a: &FilterRule, b: &FilterRule) -> (r: Ordering)
        ensures
            (r == Ordering::Less) <==> rank(*a) > rank(*b),
            (r == Ordering::Equal) <==> rank(*a) == rank(*b),
            (r == Ordering::Greater) <==> rank(*a) < rank(*b),
    {
        let ra = evaluation_rank(a);
        let rb = evaluation_rank(b);
        if ra > rb {
            Ordering::Less
        } else if ra == rb {
            Ordering::Equal
        } else {
            Ordering::Greater
        }
    }
}

/// The rules that a list of rule texts describes, or the error of the first text
/// that is not a rule.
pub open spec fn rules_from_texts(texts: Seq<Seq<char>>) -> Result<Seq<FilterRule>, RuleParseError>
    decreases texts.len(),
{
    if texts.len() == 0 {
        Ok(Seq::empty())
    } else {
        match rules_from_texts(texts.drop_last()) {
            Err(e) => Err(e),
            Ok(rules) => match rule_from_text(texts.last()) {
                Err(e) => Err(e),
                Ok(rule) => Ok(rules.push(rule)),
            },
        }
    }
}

/// `texts` are the rule texts of `rules`, one for one, and every target is valid.
pub open spec fn texts_of_rules(texts: Seq<String>, rules: Seq<FilterRule>) -> bool {
    &&& texts.len() == rules.len()
    &&& forall|i: int|
        0 <= i < rules.len() ==> #[trigger] rules[i].spec_target().wf() && texts[i]@ == rule_text(
            rules[i],
        )
}

impl PeerFilter {
    /// The texts of the rules, in the order in which they were added.
    pub fn to_rule_strings(&self) -> (texts: Vec<String>)
        ensures
            texts_of_rules(texts@, self@),
    {
        let n = self.rules.len();
        let mut texts: Vec<String> = Vec::new();
        let mut i: usize = 0;
        while i < n
            invariant
                n == self.rules@.len(),
                i <= n,
                texts_of_rules(texts@, self.rules@.take(i as int)),
            decreases n - i,
        {
            let rule = self.rules[i];
            proof {
                use_type_invariant(&rule.target);
            }
            texts.push(rule.to_string());
            i = i + 1;
        }
        assert(self.rules@.take(n as int) =~= self.rules@);
        texts
    }

    /// A filter holding the rules that the texts describe, in order; fails with the
    /// error of the first text that is not a rule. Texts written by `to_rule_strings`
    /// give back the same rules.
    pub fn from_rule_strings(texts: &Vec<String>) -> (r: Result<PeerFilter, RuleParseError>)
        ensures
            match r {
                Ok(filter) => rules_from_texts(texts@.map_values(|t: String| t@)) == Ok::<
                    Seq<FilterRule>,
                    RuleParseError,
                >(filter@),
                Err(e) => rules_from_texts(texts@.map_values(|t: String| t@)) == Err::<
                    Seq<FilterRule>,
                    RuleParseError,
                >(e),
            },
            forall|rules: Seq<FilterRule>|
                texts_of_rules(texts@, rules) ==> (r matches Ok(filter) && filter@ == rules),
    {
        let ghost views = texts@.map_values(|t: String| t@);
        let n = texts.len();
        let mut rules: Vec<FilterRule> = Vec::new();
        let mut failure: Option<RuleParseError> = None;
        let mut i: usize = 0;
        while i < n
            invariant
                n == texts@.len(),
                i <= n,
                views == texts@.map_values(|t: String| t@),
                match failure {
                    None => rules_from_texts(views.take(i as int)) == Ok::<
                        Seq<FilterRule>,
                        RuleParseError,
                    >(rules@),
                    Some(e) => rules_from_texts(views.take(i as int)) == Err::<
                        Seq<FilterRule>,
                        RuleParseError,
                    >(e),
                },
                forall|rs: Seq<FilterRule>|
                    texts_of_rules(texts@, rs) ==> failure is None && rules@ == rs.take(i as int),
            decreases n - i,
        {
            assert(views.take(i + 1).drop_last() =~= views.take(i as int));
            assert(views.take(i + 1).last() == texts@[i as int]@);
            if failure.is_none() {
                match FilterRule::from_string(texts[i].as_str()) {
                    Ok(rule) => {
                        rules.push(rule);
                    },
                    Err(e) => {
                        failure = Some(e);
                    },
                }
            }
            assert forall|rs: Seq<FilterRule>|
                texts_of_rules(texts@, rs) implies failure is None && rules@ == rs.take(i + 1) by {
                assert(rs[i as int].spec_target().wf());
                assert(rules@ =~= rs.take(i + 1));
            }
            i = i + 1;
        }
        assert(views.take(n as int) =~= views);
        assert forall|rs: Seq<FilterRule>| texts_of_rules(texts@, rs) implies rules@ == rs by {
            assert(rs.take(n as int) =~= rs);
        }
        match failure {
            None => Ok(PeerFilter { rules }),
            Some(e) => Err(e),
        }
    }
}

/// The rules of `order` are ordered by rank, highest first.
pub open spec fn rank_sorted(order: Seq<FilterRule>) -> bool {
    forall|i: int, j: int| 0 <= i < j < order.len() ==> rank(order[i]) >= rank(order[j])
}

/// The network of `rule` contains `ip`.
pub open spec fn rule_matches(rule: FilterRule, ip: IpAddr) -> bool {
    rule.spec_target().spec_contains(ip)
}

proof fn lemma_insert_by_rank_multiset(sorted: Seq<FilterRule>, rule: FilterRule)
    ensures
        insert_by_rank(sorted, rule).to_multiset() =~= sorted.to_multiset().insert(rule),
    decreases sorted.len(),
{
    broadcast use vstd::seq_lib::group_to_multiset_ensures;
    broadcast use vstd::multiset::group_multiset_axioms;

    if sorted.len() == 0 {
        assert(seq![rule] =~= Seq::<FilterRule>::empty().push(rule));
    } else if rank(sorted.last()) >= rank(rule) {
    } else {
        let rest = sorted.drop_last();
        lemma_insert_by_rank_multiset(rest, rule);
        assert(sorted =~= rest.push(sorted.last()));
    }
}

proof fn lemma_insert_by_rank_sorted(sorted: Seq<FilterRule>, rule: FilterRule)
    requires
        rank_sorted(sorted),
    ensures
        rank_sorted(insert_by_rank(sorted, rule)),
    decreases sorted.len(),
{
    broadcast use vstd::seq_lib::group_to_multiset_ensures;
    broadcast use vstd::multiset::group_multiset_axioms;

    if sorted.len() == 0 {
    } else if rank(sorted.last()) >= rank(rule) {
    } else {
        let rest = sorted.drop_last();
        let last = sorted.last();
        lemma_insert_by_rank_sorted(rest, rule);
        lemma_insert_by_rank_multiset(rest, rule);
        let inserted = insert_by_rank(rest, rule);
        assert forall|k: int| 0 <= k < inserted.len() implies rank(inserted[k]) >= rank(last) by {
            let x = inserted[k];
            assert(inserted.contains(x));
            assert(inserted.to_multiset().count(x) > 0);
            if x != rule {
                assert(rest.to_multiset().count(x) > 0);
                assert(rest.contains(x));
                let m = choose|m: int| 0 <= m < rest.len() && rest[m] == x;
                assert(sorted[m] == x);
            }
        }
    }
}

/// The evaluation order holds exactly the rules of the ruleset, as often as they occur.
pub proof fn lemma_evaluation_order_permutes(rules: Seq<FilterRule>)
    ensures
        evaluation_order(rules).to_multiset() =~= rules.to_multiset(),
        evaluation_order(rules).len() == rules.len(),
    decreases rules.len(),
{
    broadcast use vstd::seq_lib::group_to_multiset_ensures;

    if rules.len() > 0 {
        let rest = rules.drop_last();
        lemma_evaluation_order_permutes(rest);
        lemma_insert_by_rank_multiset(evaluation_order(rest), rules.last());
        assert(rules =~= rest.push(rules.last()));
    }
    assert(evaluation_order(rules).to_multiset().len() == rules.to_multiset().len());
}

/// The evaluation order lists rules by rank: longer prefixes first, and at equal
/// prefix length `Allow` before `Deny`.
pub proof fn lemma_evaluation_order_sorted(rules: Seq<FilterRule>)
    ensures
        rank_sorted(evaluation_order(rules)),
    decreases rules.len(),
{
    if rules.len() > 0 {
        lemma_evaluation_order_sorted(rules.drop_last());
        lemma_insert_by_rank_sorted(evaluation_order(rules.drop_last()), rules.last());
    }
}

proof fn lemma_filter_push(s: Seq<FilterRule>, x: FilterRule, pred: spec_fn(FilterRule) -> bool)
    ensures
        s.push(x).filter(pred) == (if pred(x) {
            s.filter(pred).push(x)
        } else {
            s.filter(pred)
        }),
{
    reveal_with_fuel(Seq::<_>::filter, 1);
    assert(s.push(x).drop_last() =~= s);
}

proof fn lemma_insert_by_rank_stable(sorted: Seq<FilterRule>, rule: FilterRule, k: int)
    ensures
        insert_by_rank(sorted, rule).filter(|x: FilterRule| rank(x) == k) == (if rank(rule) == k {
            sorted.filter(|x: FilterRule| rank(x) == k).push(rule)
        } else {
            sorted.filter(|x: FilterRule| rank(x) == k)
        }),
    decreases sorted.len(),
{
    let pred = |x: FilterRule| rank(x) == k;
    if sorted.len() == 0 {
        lemma_filter_push(sorted, rule, pred);
        assert(seq![rule] =~= sorted.push(rule));
    } else if rank(sorted.last()) >= rank(rule) {
        lemma_filter_push(sorted, rule, pred);
    } else {
        let rest = sorted.drop_last();
        lemma_insert_by_rank_stable(rest, rule, k);
        lemma_filter_push(insert_by_rank(rest, rule), sorted.last(), pred);
        lemma_filter_push(rest, sorted.last(), pred);
        assert(sorted =~= rest.push(sorted.last()));
    }
}

/// Rules of equal rank are evaluated in the order in which they were added: for every
/// rank, the rules of that rank appear in the evaluation order as in the ruleset.
pub proof fn lemma_evaluation_order_stable(rules: Seq<FilterRule>, k: int)
    ensures
        evaluation_order(rules).filter(|x: FilterRule| rank(x) == k) == rules.filter(
            |x: FilterRule| rank(x) == k,
        ),
    decreases rules.len(),
{
    if rules.len() > 0 {
        let rest = rules.drop_last();
        lemma_evaluation_order_stable(rest, k);
        lemma_insert_by_rank_stable(evaluation_order(rest), rules.last(), k);
        lemma_filter_push(rest, rules.last(), |x: FilterRule| rank(x) == k);
        assert(rules =~= rest.push(rules.last()));
    } else {
        reveal_with_fuel(Seq::<_>::filter, 1);
    }
}

proof fn lemma_first_match(order: Seq<FilterRule>, ip: IpAddr)
    ensures
        first_match(order, ip) is None ==> forall|k: int|
            0 <= k < order.len() ==> !rule_matches(#[trigger] order[k], ip),
        first_match(order, ip) matches Some(action) ==> exists|k: int|
            0 <= k < order.len() && rule_matches(#[trigger] order[k], ip) && order[k].spec_action()
                == action && forall|j: int| 0 <= j < k ==> !rule_matches(order[j], ip),
    decreases order.len(),
{
    if order.len() > 0 {
        let rest = order.drop_first();
        lemma_first_match(rest, ip);
        if rule_verdict(order[0], ip) is None {
            assert forall|k: int| 1 <= k < order.len() implies order[k] == rest[k - 1] by {}
            if let Some(action) = first_match(order, ip) {
                let k = choose|k: int|
                    0 <= k < rest.len() && rule_matches(#[trigger] rest[k], ip)
                        && rest[k].spec_action() == action && forall|j: int|
                        0 <= j < k ==> !rule_matches(rest[j], ip);
                assert(order[k + 1] == rest[k]);
                assert forall|j: int| 0 <= j < k + 1 implies !rule_matches(order[j], ip) by {
                    if j > 0 {
                        assert(order[j] == rest[j - 1]);
                    }
                }
            } else {
                assert forall|k: int| 0 <= k < order.len() implies !rule_matches(order[k], ip) by {
                    if k > 0 {
                        assert(order[k] == rest[k - 1]);
                    }
                }
            }
        }
    }
}

/// Some `Allow` rule contains `ip` and no `Deny` rule that contains `ip` has a longer
/// prefix.
#[verifier::opaque]
pub open spec fn allow_prevails(rules: Seq<FilterRule>, ip: IpAddr) -> bool {
    exists|i: int|
        0 <= i < rules.len() && rules[i].spec_action() == PeerAction::Allow && rule_matches(
            #[trigger] rules[i],
            ip,
        ) && forall|j: int|
            0 <= j < rules.len() && rules[j].spec_action() == PeerAction::Deny && rule_matches(
                #[trigger] rules[j],
                ip,
            ) ==> rules[j].spec_target().spec_prefix_len() <= rules[i].spec_target().spec_prefix_len()
}

/// How a peer is judged: it is allowed exactly when some `Allow` rule contains it and
/// no `Deny` rule that contains it has a longer prefix. So the most specific matching
/// rule decides, `Allow` wins over `Deny` at equal prefix length, and a peer that no
/// rule contains is denied.
pub proof fn lemma_filter_verdict_precedence(rules: Seq<FilterRule>, ip: IpAddr)
    ensures
        filter_verdict(rules, ip) == PeerAction::Allow <==> allow_prevails(rules, ip),
{
    broadcast use vstd::seq_lib::group_to_multiset_ensures;

    reveal(allow_prevails);
    let order = evaluation_order(rules);
    lemma_evaluation_order_permutes(rules);
    lemma_evaluation_order_sorted(rules);
    lemma_first_match(order, ip);
    assert forall|x: FilterRule| order.contains(x) <==> rules.contains(x) by {
        assert(order.to_multiset().count(x) == rules.to_multiset().count(x));
    }
    if filter_verdict(rules, ip) == PeerAction::Allow {
        let k = choose|k: int|
            0 <= k < order.len() && rule_matches(#[trigger] order[k], ip) && order[k].spec_action()
                == PeerAction::Allow && forall|j: int| 0 <= j < k ==> !rule_matches(order[j], ip);
        let winner = order[k];
        assert(order.contains(winner));
        let i = choose|i: int| 0 <= i < rules.len() && rules[i] == winner;
        assert forall|j: int|
            0 <= j < rules.len() && rules[j].spec_action() == PeerAction::Deny && rule_matches(
                #[trigger] rules[j],
                ip,
            ) implies rules[j].spec_target().spec_prefix_len()
            <= rules[i].spec_target().spec_prefix_len() by {
            let d = rules[j];
            assert(rules.contains(d));
            assert(order.contains(d));
            let m = choose|m: int| 0 <= m < order.len() && order[m] == d;
            if m < k {
                assert(!rule_matches(order[m], ip));
            } else {
                assert(rank(order[k]) >= rank(order[m]));
            }
        }
    } else {
        assert forall|i: int|
            0 <= i < rules.len() && rules[i].spec_action() == PeerAction::Allow && rule_matches(
                #[trigger] rules[i],
                ip,
            ) implies exists|j: int|
            0 <= j < rules.len() && rules[j].spec_action() == PeerAction::Deny && rule_matches(
                #[trigger] rules[j],
                ip,
            ) && rules[j].spec_target().spec_prefix_len()
                > rules[i].spec_target().spec_prefix_len() by {
            let a = rules[i];
            assert(rules.contains(a));
            assert(order.contains(a));
            let m = choose|m: int| 0 <= m < order.len() && order[m] == a;
            assert(first_match(order, ip) is Some);
            let k = choose|k: int|
                0 <= k < order.len() && rule_matches(#[trigger] order[k], ip)
                    && order[k].spec_action() == PeerAction::Deny && forall|j: int|
                    0 <= j < k ==> !rule_matches(order[j], ip);
            let d = order[k];
            assert(k <= m);
            assert(k != m);
            assert(rank(d) >= rank(a));
            assert(order.contains(d));
            let j = choose|j: int| 0 <= j < rules.len() && rules[j] == d;
            assert(rules[j] == d);
        }
    }
}


/// A peer that no rule contains is denied.
pub proof fn lemma_filter_verdict_default_deny(rules: Seq<FilterRule>, ip: IpAddr)
    requires
        forall|i: int| 0 <= i < rules.len() ==> !rule_matches(#[trigger] rules[i], ip),
    ensures
        filter_verdict(rules, ip) == PeerAction::Deny,
{
    lemma_filter_verdict_precedence(rules, ip);
    reveal(allow_prevails);
    if filter_verdict(rules, ip) == PeerAction::Allow {
        let i = choose|i: int|
            0 <= i < rules.len() && rules[i].spec_action() == PeerAction::Allow && rule_matches(
                #[trigger] rules[i],
                ip,
            ) && forall|j: int|
                0 <= j < rules.len() && rules[j].spec_action() == PeerAction::Deny && rule_matches(
                    #[trigger] rules[j],
                    ip,
                ) ==> rules[j].spec_target().spec_prefix_len() <= rules[i].spec_target().spec_prefix_len();
        assert(!rule_matches(rules[i], ip));
    }
    match filter_verdict(rules, ip) {
        PeerAction::Allow => {},
        PeerAction::Deny => {},
    }
}

proof fn lemma_allow_prevails_same_rules(a: Seq<FilterRule>, b: Seq<FilterRule>, ip: IpAddr)
    requires
        forall|rule: FilterRule| a.contains(rule) <==> b.contains(rule),
        allow_prevails(a, ip),
    ensures
        allow_prevails(b, ip),
{
    reveal(allow_prevails);
    let i = choose|i: int|
        0 <= i < a.len() && a[i].spec_action() == PeerAction::Allow && rule_matches(
            #[trigger] a[i],
            ip,
        ) && forall|j: int|
            0 <= j < a.len() && a[j].spec_action() == PeerAction::Deny && rule_matches(
                #[trigger] a[j],
                ip,
            ) ==> a[j].spec_target().spec_prefix_len() <= a[i].spec_target().spec_prefix_len();
    assert(a.contains(a[i]));
    assert(b.contains(a[i]));
    let k = choose|k: int| 0 <= k < b.len() && b[k] == a[i];
    assert forall|j: int|
        0 <= j < b.len() && b[j].spec_action() == PeerAction::Deny && rule_matches(
            #[trigger] b[j],
            ip,
        ) implies b[j].spec_target().spec_prefix_len() <= b[k].spec_target().spec_prefix_len() by {
        assert(b.contains(b[j]));
        assert(a.contains(b[j]));
        let m = choose|m: int| 0 <= m < a.len() && a[m] == b[j];
    }
    assert(rule_matches(b[k], ip));
}

/// The verdict depends only on which rules there are: two rulesets that hold the same
/// rules, in any order and however often, judge every peer alike.
pub proof fn lemma_filter_verdict_order_independent(
    rules1: Seq<FilterRule>,
    rules2: Seq<FilterRule>,
    ip: IpAddr,
)
    requires
        forall|rule: FilterRule| rules1.contains(rule) <==> rules2.contains(rule),
    ensures
        filter_verdict(rules1, ip) == filter_verdict(rules2, ip),
{
    lemma_filter_verdict_precedence(rules1, ip);
    lemma_filter_verdict_precedence(rules2, ip);
    if allow_prevails(rules1, ip) {
        lemma_allow_prevails_same_rules(rules1, rules2, ip);
    }
    if allow_prevails(rules2, ip) {
        lemma_allow_prevails_same_rules(rules2, rules1, ip);
    }
    match filter_verdict(rules1, ip) {
        PeerAction::Allow => {},
        PeerAction::Deny => {
            match filter_verdict(rules2, ip) {
                PeerAction::Allow => {},
                PeerAction::Deny => {},
            }
        },
    }
}

/// Ranks order rules by prefix length alone, whatever the address family: a longer
/// prefix ranks higher, and at equal length `Allow` ranks higher than `Deny`; rules
/// with the same prefix length and action rank alike.
pub proof fn lemma_rank_order(a: FilterRule, b: FilterRule)
    ensures
        rank(a) > rank(b) <==> (a.spec_target().spec_prefix_len() > b.spec_target().spec_prefix_len() || (
        a.spec_target().spec_prefix_len() == b.spec_target().spec_prefix_len() && a.spec_action()
            == PeerAction::Allow && b.spec_action() == PeerAction::Deny)),
        rank(a) == rank(b) <==> (a.spec_target().spec_prefix_len() == b.spec_target().spec_prefix_len()
            && a.spec_action() == b.spec_action()),
{
    match (a.spec_action(), b.spec_action()) {
        (PeerAction::Allow, PeerAction::Allow) => {},
        (PeerAction::Allow, PeerAction::Deny) => {},
        (PeerAction::Deny, PeerAction::Allow) => {},
        (PeerAction::Deny, PeerAction::Deny) => {},
    }
}

/// In evaluation order, prefix lengths never grow, for IPv4 and IPv6 targets alike,
/// and among rules of equal prefix length every `Allow` comes before every `Deny`.
pub proof fn lemma_evaluation_order_by_prefix(rules: Seq<FilterRule>)
    ensures
        forall|i: int, j: int|
            0 <= i < j < evaluation_order(rules).len() ==> evaluation_order(rules)[i].spec_target().spec_prefix_len()
                >= evaluation_order(rules)[j].spec_target().spec_prefix_len(),
        forall|i: int, j: int|
            0 <= i < j < evaluation_order(rules).len() && evaluation_order(rules)[i].spec_target().spec_prefix_len()
                == evaluation_order(rules)[j].spec_target().spec_prefix_len() && evaluation_order(rules)[j].spec_action()
                == PeerAction::Allow ==> evaluation_order(rules)[i].spec_action() == PeerAction::Allow,
{
    let order = evaluation_order(rules);
    lemma_evaluation_order_sorted(rules);
    assert forall|i: int, j: int| 0 <= i < j < order.len() implies order[i].spec_target().spec_prefix_len()
        >= order[j].spec_target().spec_prefix_len() && (order[i].spec_target().spec_prefix_len()
        == order[j].spec_target().spec_prefix_len() && order[j].spec_action() == PeerAction::Allow
        ==> order[i].spec_action() == PeerAction::Allow) by {
        assert(rank(order[i]) >= rank(order[j]));
        lemma_rank_order(order[j], order[i]);
    }
}

} // verus!
