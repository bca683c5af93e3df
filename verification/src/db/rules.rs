//! The rules and the functions that users define. A rule gives triples from triples and
//! a function values from values; the host applies them.

use super::logs::is_database_error;
use super::requests::derived;
use super::state::{changed_by_all, dict_fits, effects, takes_effect, Change, DbSpec};
use super::update::{default_inserts, lemma_change_fits, lemma_one_more};
use super::Database;
use crate::cli::{lower, lowered};
use crate::dict::dict_ok;
use crate::error::{join3, GStoreError, Result};
use crate::model::Triple;
use crate::text::{same, texts};
use vstd::prelude::*;
use vstd::string::*;

verus! {

/// A rule by its text, `body => head`.
#[derive(Debug)]
pub struct Rule {
    pub name: String,
    pub text: String,
    pub enabled: bool,
    /// How many triples it gave when the rules ran last.
    pub effect: usize,
}

/// A rule as a mathematical value.
pub ghost struct RuleSpec {
    pub name: Seq<char>,
    pub text: Seq<char>,
    pub enabled: bool,
    pub effect: nat,
}

impl View for Rule {
    type V = RuleSpec;

    open spec fn view(&self) -> RuleSpec {
        RuleSpec { name: self.name@, text: self.text@, enabled: self.enabled, effect: self.effect as nat }
    }
}

/// A triple that follows by a rule.
#[derive(Debug)]
pub struct Inferred {
    pub rule: String,
    pub triple: Triple,
}

/// The rules as mathematical values.
pub open spec fn rule_views(v: Seq<Rule>) -> Seq<RuleSpec> {
    v.map_values(|r: Rule| r@)
}

/// The first rule with a name.
pub open spec fn rule_named(rules: Seq<RuleSpec>, name: Seq<char>) -> Option<int>
    decreases rules.len(),
{
    if rules.len() == 0 {
        None
    } else {
        match rule_named(rules.drop_last(), name) {
            Some(k) => Some(k),
            None => if rules.last().name == name {
                Some(rules.len() - 1)
            } else {
                None
            },
        }
    }
}

proof fn lemma_rule_named(rules: Seq<RuleSpec>, name: Seq<char>, n: int)
    requires
        0 <= n < rules.len(),
        rule_named(rules.take(n), name) is None,
    ensures
        rules[n].name == name ==> rule_named(rules, name) == Some(n),
        rules[n].name != name ==> rule_named(rules.take(n + 1), name) is None,
    decreases rules.len(),
{
    assert(rules.take(n + 1).drop_last() =~= rules.take(n));
    if n < rules.len() - 1 {
        assert(rules.drop_last().take(n) =~= rules.take(n));
        assert(rules.drop_last().take(n + 1) =~= rules.take(n + 1));
        lemma_rule_named(rules.drop_last(), name, n);
    } else {
        assert(rules.drop_last() =~= rules.take(n));
    }
}

/// The place of a rule is one in the list, and the rule there has the name.
pub proof fn lemma_rule_place(rules: Seq<RuleSpec>, name: Seq<char>)
    ensures
        rule_named(rules, name) matches Some(k) ==> 0 <= k < rules.len() && rules[k].name == name,
    decreases rules.len(),
{
    if rules.len() > 0 {
        lemma_rule_place(rules.drop_last(), name);
    }
}

/// A rule that is applied or not from now on.
pub open spec fn switched(rules: Seq<RuleSpec>, name: Seq<char>, enabled: bool) -> Seq<RuleSpec> {
    match rule_named(rules, name) {
        Some(k) => rules.update(k, RuleSpec { enabled, ..rules[k] }),
        None => rules,
    }
}

/// A name stands for the first rule that has it, and for none if no rule has it.
pub proof fn law_rule_is_found_by_name(rules: Seq<RuleSpec>, name: Seq<char>)
    ensures
        rule_named(rules, name) is None <==> forall|k: int| 0 <= k < rules.len() ==> (#[trigger] rules[k]).name != name,
        forall|k: int| #[trigger] rule_named(rules, name) == Some(k) <==> {
            &&& 0 <= k < rules.len()
            &&& rules[k].name == name
            &&& forall|j: int| 0 <= j < k ==> (#[trigger] rules[j]).name != name
        },
    decreases rules.len(),
{
    if rules.len() > 0 {
        let front = rules.drop_last();
        law_rule_is_found_by_name(front, name);
        assert(rules.last() == rules[rules.len() - 1]);
        assert forall|j: int| 0 <= j < front.len() implies (#[trigger] rules[j]) == front[j] by {
        }
        match rule_named(front, name) {
            Some(i) => {
                assert(rules[i] == front[i]);
                assert forall|k: int| #[trigger] rule_named(rules, name) == Some(k) <==> (0 <= k < rules.len() && rules[k].name == name && forall|j: int| 0 <= j < k ==> (#[trigger] rules[j]).name != name) by {
                    if k == i {
                        assert forall|j: int| 0 <= j < k implies (#[trigger] rules[j]).name != name by {
                            assert(front[j].name != name);
                        }
                    }
                    if 0 <= k < i {
                        assert(front[k].name != name);
                        assert(rules[k] == front[k]);
                    }
                    if i < k {
                        assert(rules[i].name == name);
                    }
                }
            },
            None => {
                assert forall|j: int| 0 <= j < front.len() implies (#[trigger] rules[j]).name != name by {
                    assert(front[j].name != name);
                }
            },
        }
    }
}

/// Enabling or disabling a rule by its name: the first rule that has the name is enabled
/// then, or not, as was asked. Its text and its effect, and all other rules, are as before.
pub proof fn law_rule_is_switched(rules: Seq<RuleSpec>, name: Seq<char>, enabled: bool)
    ensures
        switched(rules, name, enabled).len() == rules.len(),
        forall|k: int| 0 <= k < rules.len() ==> {
            &&& (#[trigger] switched(rules, name, enabled)[k]).name == rules[k].name
            &&& switched(rules, name, enabled)[k].text == rules[k].text
            &&& switched(rules, name, enabled)[k].effect == rules[k].effect
            &&& rules[k].name != name ==> switched(rules, name, enabled)[k].enabled == rules[k].enabled
            &&& rules[k].name == name && (forall|j: int| 0 <= j < k ==> (#[trigger] rules[j]).name != name) ==> switched(rules, name, enabled)[k].enabled == enabled
            &&& (exists|j: int| 0 <= j < k && (#[trigger] rules[j]).name == name) ==> switched(rules, name, enabled)[k] == rules[k]
        },
{
    law_rule_is_found_by_name(rules, name);
    let after = switched(rules, name, enabled);
    match rule_named(rules, name) {
        Some(i) => {
            assert(rule_named(rules, name) == Some(i));
            assert forall|k: int| 0 <= k < rules.len() implies {
                &&& (#[trigger] after[k]).name == rules[k].name
                &&& after[k].text == rules[k].text
                &&& after[k].effect == rules[k].effect
                &&& rules[k].name != name ==> after[k].enabled == rules[k].enabled
                &&& rules[k].name == name && (forall|j: int| 0 <= j < k ==> (#[trigger] rules[j]).name != name) ==> after[k].enabled == enabled
                &&& (exists|j: int| 0 <= j < k && (#[trigger] rules[j]).name == name) ==> after[k] == rules[k]
            } by {
                assert(rules[i].name == name);
                if rules[k].name == name && (forall|j: int| 0 <= j < k ==> (#[trigger] rules[j]).name != name) {
                    assert(rule_named(rules, name) == Some(k));
                }
            }
        },
        None => {},
    }
}

/// A rule that is disabled and enabled again is as it was if it was enabled, and a rule that
/// is enabled and disabled again is as it was if it was not.
pub proof fn law_switching_back_restores(rules: Seq<RuleSpec>, name: Seq<char>, k: int, enabled: bool)
    requires
        0 <= k < rules.len(),
        rules[k].name == name,
        forall|j: int| 0 <= j < k ==> (#[trigger] rules[j]).name != name,
        rules[k].enabled == enabled,
    ensures
        switched(switched(rules, name, !enabled), name, enabled) == rules,
        switched(rules, name, enabled) == rules,
{
    law_rule_is_found_by_name(rules, name);
    assert(rule_named(rules, name) == Some(k));
    let off = switched(rules, name, !enabled);
    assert forall|j: int| 0 <= j < k implies (#[trigger] off[j]).name != name by {
        assert(rules[j].name != name);
    }
    assert(off[k].name == name);
    law_rule_is_found_by_name(off, name);
    assert(rule_named(off, name) == Some(k));
    assert(switched(off, name, enabled) =~= rules);
    assert(switched(rules, name, enabled) =~= rules);
}

/// The triples that follow by rules that are enabled, each with the place of its rule.
pub open spec fn given(rules: Seq<RuleSpec>, inferred: Seq<Inferred>) -> Seq<(int, Triple)>
    decreases inferred.len(),
{
    if inferred.len() == 0 {
        Seq::empty()
    } else {
        let front = given(rules, inferred.drop_last());
        match rule_named(rules, inferred.last().rule@) {
            Some(k) => if rules[k].enabled {
                front.push((k, inferred.last().triple))
            } else {
                front
            },
            None => front,
        }
    }
}

/// The triples alone.
pub open spec fn given_triples(gs: Seq<(int, Triple)>) -> Seq<Triple> {
    gs.map_values(|g: (int, Triple)| g.1)
}

/// How many of the triples of a rule are new.
pub open spec fn effect_of(db: DbSpec, gs: Seq<(int, Triple)>, rule: int) -> nat
    decreases gs.len(),
{
    if gs.len() == 0 {
        0
    } else {
        let front = gs.drop_last();
        let mid = changed_by_all(db, default_inserts(given_triples(front)));
        effect_of(db, front, rule) + if gs.last().0 == rule && takes_effect(mid, Change::Insert(gs.last().1, None)) { 1nat } else { 0nat }
    }
}

/// The rules after they ran: those that are enabled say how many triples they gave.
pub open spec fn counted(db: DbSpec, gs: Seq<(int, Triple)>) -> Seq<RuleSpec> {
    Seq::new(
        db.rules.len(),
        |k: int|
            if db.rules[k].enabled {
                RuleSpec { effect: effect_of(db, gs, k), ..db.rules[k] }
            } else {
                db.rules[k]
            },
    )
}

/// The database after the rules ran and gave some triples.
pub open spec fn rules_ran(db: DbSpec, inferred: Seq<Inferred>) -> DbSpec {
    let gs = given(db.rules, inferred);
    DbSpec { rules: counted(db, gs), ..derived(db, given_triples(gs)) }
}

/// The names of functions with one more; case does not matter in them.
pub open spec fn registered(functions: Seq<Seq<char>>, name: Seq<char>) -> Seq<Seq<char>> {
    let low = name.map_values(|c: char| lower(c));
    if functions.contains(low) {
        functions
    } else {
        functions.push(low)
    }
}

/// The rule behind an inferred triple is enabled.
pub open spec fn rule_applies(rules: Seq<RuleSpec>, x: Inferred) -> bool {
    exists|j: int| 0 <= j < rules.len() && (#[trigger] rules[j]).name == x.rule@ && rules[j].enabled && forall|i: int| 0 <= i < j ==> (#[trigger] rules[i]).name != x.rule@
}

/// The triples that rules give are those that follow by a rule that is enabled, in order.
pub proof fn law_enabled_rules_give(rules: Seq<RuleSpec>, inferred: Seq<Inferred>)
    ensures
        forall|k: int| 0 <= k < inferred.len() && rule_applies(rules, #[trigger] inferred[k]) ==> given_triples(given(rules, inferred)).contains(inferred[k].triple),
        forall|i: int| 0 <= i < given(rules, inferred).len() ==> {
            let (j, t) = #[trigger] given(rules, inferred)[i];
            &&& 0 <= j < rules.len()
            &&& rules[j].enabled
            &&& exists|k: int| 0 <= k < inferred.len() && (#[trigger] inferred[k]).triple == t && inferred[k].rule@ == rules[j].name && rule_applies(rules, inferred[k])
        },
        given(rules, inferred).len() <= inferred.len(),
        (forall|k: int| 0 <= k < inferred.len() ==> rule_applies(rules, #[trigger] inferred[k])) ==> given_triples(given(rules, inferred)) == inferred.map_values(|x: Inferred| x.triple),
    decreases inferred.len(),
{
    let all = given(rules, inferred);
    if inferred.len() == 0 {
        assert(given_triples(all) =~= inferred.map_values(|x: Inferred| x.triple));
    } else {
        let front = inferred.drop_last();
        let x = inferred.last();
        let g0 = given(rules, front);
        law_enabled_rules_give(rules, front);
        law_rule_is_found_by_name(rules, x.rule@);
        let place = rule_named(rules, x.rule@);
        let applies = place is Some && rules[place->0].enabled;
        assert(applies <==> rule_applies(rules, x)) by {
            if applies {
                let k = place->0;
                assert(rule_named(rules, x.rule@) == Some(k));
                assert(rules[k].name == x.rule@ && rules[k].enabled);
            }
            if rule_applies(rules, x) {
                let j = choose|j: int| 0 <= j < rules.len() && (#[trigger] rules[j]).name == x.rule@ && rules[j].enabled && forall|i: int| 0 <= i < j ==> (#[trigger] rules[i]).name != x.rule@;
                assert(rule_named(rules, x.rule@) == Some(j));
            }
        }
        assert(inferred[inferred.len() - 1] == x);
        assert forall|k: int| 0 <= k < inferred.len() && rule_applies(rules, #[trigger] inferred[k]) implies given_triples(all).contains(inferred[k].triple) by {
            if k < front.len() {
                assert(front[k] == inferred[k]);
                let i = choose|i: int| 0 <= i < given_triples(g0).len() && given_triples(g0)[i] == inferred[k].triple;
                assert(given_triples(all)[i] == inferred[k].triple);
            } else {
                assert(given_triples(all)[g0.len() as int] == x.triple);
            }
        }
        assert forall|i: int| 0 <= i < all.len() implies {
            let (j, t) = #[trigger] all[i];
            &&& 0 <= j < rules.len()
            &&& rules[j].enabled
            &&& exists|k: int| 0 <= k < inferred.len() && (#[trigger] inferred[k]).triple == t && inferred[k].rule@ == rules[j].name && rule_applies(rules, inferred[k])
        } by {
            let (j, t) = all[i];
            if i < g0.len() {
                assert(all[i] == g0[i]);
                let k = choose|k: int| 0 <= k < front.len() && (#[trigger] front[k]).triple == t && front[k].rule@ == rules[j].name && rule_applies(rules, front[k]);
                assert(inferred[k] == front[k]);
            } else {
                assert(rule_named(rules, x.rule@) == Some(j));
                assert(inferred[inferred.len() - 1].triple == t);
            }
        }
        if forall|k: int| 0 <= k < inferred.len() ==> rule_applies(rules, #[trigger] inferred[k]) {
            assert forall|k: int| 0 <= k < front.len() implies rule_applies(rules, #[trigger] front[k]) by {
                assert(front[k] == inferred[k]);
            }
            assert(rule_applies(rules, inferred[inferred.len() - 1]));
            let f = |y: Inferred| y.triple;
            assert(given_triples(g0) == front.map_values(|y: Inferred| y.triple));
            assert(front.map_values(f).push(x.triple) =~= inferred.map_values(f));
            assert(given_triples(all) =~= given_triples(g0).push(x.triple));
            assert(inferred.map_values(|y: Inferred| y.triple) =~= inferred.map_values(f));
            assert(front.map_values(|y: Inferred| y.triple) =~= front.map_values(f));
        }
    }
}

/// The sum of the effects of the first rules.
pub open spec fn effect_sum(db: DbSpec, gs: Seq<(int, Triple)>, n: nat) -> nat
    decreases n,
{
    if n == 0 {
        0
    } else {
        effect_sum(db, gs, (n - 1) as nat) + effect_of(db, gs, n - 1)
    }
}

proof fn lemma_effect_sum(db: DbSpec, gs: Seq<(int, Triple)>, n: nat)
    requires
        gs.len() > 0,
    ensures
        effect_sum(db, gs, n) == effect_sum(db, gs.drop_last(), n) + if 0 <= gs.last().0 < n && takes_effect(changed_by_all(db, default_inserts(given_triples(gs.drop_last()))), Change::Insert(gs.last().1, None)) { 1nat } else { 0nat },
    decreases n,
{
    if n > 0 {
        lemma_effect_sum(db, gs, (n - 1) as nat);
    }
}

/// Running the rules: a rule keeps its name, its text and whether it is enabled. One that is
/// not enabled keeps its effect. The effects of all rules that gave triples add up to the
/// number of triples that were new.
pub proof fn law_effects_add_up(db: DbSpec, inferred: Seq<Inferred>)
    ensures
        rules_ran(db, inferred).rules.len() == db.rules.len(),
        forall|k: int| 0 <= k < db.rules.len() ==> {
            &&& (#[trigger] rules_ran(db, inferred).rules[k]).name == db.rules[k].name
            &&& rules_ran(db, inferred).rules[k].text == db.rules[k].text
            &&& rules_ran(db, inferred).rules[k].enabled == db.rules[k].enabled
            &&& !db.rules[k].enabled ==> rules_ran(db, inferred).rules[k].effect == db.rules[k].effect
            &&& db.rules[k].enabled ==> rules_ran(db, inferred).rules[k].effect == effect_of(db, given(db.rules, inferred), k)
        },
        effect_sum(db, given(db.rules, inferred), db.rules.len()) == effects(db, default_inserts(given_triples(given(db.rules, inferred)))),
        forall|k: int| 0 <= k < db.rules.len() && !(#[trigger] db.rules[k]).enabled ==> effect_of(db, given(db.rules, inferred), k) == 0,
{
    let gs = given(db.rules, inferred);
    law_enabled_rules_give(db.rules, inferred);
    assert forall|i: int| 0 <= i < gs.len() implies 0 <= (#[trigger] gs[i]).0 < db.rules.len() && db.rules[gs[i].0].enabled by {
        let (j, t) = gs[i];
    }
    lemma_effects_add_up(db, gs, db.rules.len());
    assert forall|k: int| 0 <= k < db.rules.len() && !(#[trigger] db.rules[k]).enabled implies effect_of(db, gs, k) == 0 by {
        lemma_no_effect(db, gs, k);
    }
}

proof fn lemma_no_effect(db: DbSpec, gs: Seq<(int, Triple)>, k: int)
    requires
        forall|i: int| 0 <= i < gs.len() ==> (#[trigger] gs[i]).0 != k,
    ensures
        effect_of(db, gs, k) == 0,
    decreases gs.len(),
{
    if gs.len() > 0 {
        let front = gs.drop_last();
        assert forall|i: int| 0 <= i < front.len() implies (#[trigger] front[i]).0 != k by {
            assert(gs[i].0 != k);
        }
        lemma_no_effect(db, front, k);
        assert(gs[gs.len() - 1].0 != k);
    }
}

proof fn lemma_effects_add_up(db: DbSpec, gs: Seq<(int, Triple)>, n: nat)
    requires
        forall|i: int| 0 <= i < gs.len() ==> 0 <= (#[trigger] gs[i]).0 < n,
    ensures
        effect_sum(db, gs, n) == effects(db, default_inserts(given_triples(gs))),
    decreases gs.len(),
{
    if gs.len() == 0 {
        lemma_no_sum(db, gs, n);
    } else {
        let front = gs.drop_last();
        assert forall|i: int| 0 <= i < front.len() implies 0 <= (#[trigger] front[i]).0 < n by {
            assert(0 <= gs[i].0 < n);
        }
        lemma_effects_add_up(db, front, n);
        lemma_effect_sum(db, gs, n);
        assert(0 <= gs[gs.len() - 1].0 < n);
        assert(default_inserts(given_triples(gs)).drop_last() =~= default_inserts(given_triples(front)));
    }
}

proof fn lemma_no_sum(db: DbSpec, gs: Seq<(int, Triple)>, n: nat)
    requires
        gs.len() == 0,
    ensures
        effect_sum(db, gs, n) == 0,
    decreases n,
{
    if n > 0 {
        lemma_no_sum(db, gs, (n - 1) as nat);
    }
}

proof fn lemma_rules_stay(db: DbSpec, cs: Seq<Change>)
    ensures
        changed_by_all(db, cs).rules == db.rules,
    decreases cs.len(),
{
    if cs.len() > 0 {
        lemma_rules_stay(db, cs.drop_last());
    }
}

proof fn lemma_effect_bound(db: DbSpec, gs: Seq<(int, Triple)>, rule: int)
    ensures
        effect_of(db, gs, rule) <= gs.len(),
    decreases gs.len(),
{
    if gs.len() > 0 {
        lemma_effect_bound(db, gs.drop_last(), rule);
    }
}

/// The place of the first rule with a name.
fn place_of_rule(rules: &Vec<Rule>, name: &str) -> (r: Option<usize>)
    ensures
        r is Some <==> rule_named(rule_views(rules@), name@) is Some,
        r matches Some(k) ==> rule_named(rule_views(rules@), name@) == Some(k as int) && k < rules@.len(),
{
    let ghost rs = rule_views(rules@);
    let mut i: usize = 0;
    assert(rs.take(0) =~= Seq::<RuleSpec>::empty());
    while i < rules.len()
        invariant
            i <= rules@.len(),
            rs == rule_views(rules@),
            rule_named(rs.take(i as int), name@) is None,
        decreases rules.len() - i,
    {
        proof {
            lemma_rule_named(rs, name@, i as int);
            assert(rs[i as int] == rules@[i as int]@);
        }
        if same(rules[i].name.as_str(), name) {
            return Some(i);
        }
        i = i + 1;
    }
    assert(rs.take(rs.len() as int) =~= rs);
    None
}

/// A copy of the rules.
pub(super) fn copy_rules(v: &Vec<Rule>) -> (r: Vec<Rule>)
    ensures
        rule_views(r@) == rule_views(v@),
{
    let mut r: Vec<Rule> = Vec::new();
    let mut i: usize = 0;
    while i < v.len()
        invariant
            i <= v@.len(),
            r@.len() == i,
            forall|k: int| 0 <= k < i ==> (#[trigger] r@[k])@ == v@[k]@,
        decreases v.len() - i,
    {
        r.push(Rule { name: v[i].name.clone(), text: v[i].text.clone(), enabled: v[i].enabled, effect: v[i].effect });
        i = i + 1;
    }
    assert(rule_views(r@) =~= rule_views(v@));
    r
}

impl Database {
    /// Define a rule, given what parsing its text gave. The name must not be taken and
    /// the text must parse.
    pub fn add_rule(&mut self, name: &str, text: &str, parsed: Result<()>) -> (r: Result<()>)
        requires
            old(self).wf(),
        ensures
            final(self).wf(),
            r is Err ==> final(self)@ == old(self)@,
            if rule_named(old(self)@.rules, name@) is Some {
                r matches Err(e) && is_database_error(e, "rule '"@ + name@ + "' already exists"@)
            } else {
                &&& r is Ok <==> parsed is Ok
                &&& parsed matches Err(e) ==> r == Err::<(), GStoreError>(e)
                &&& r is Ok ==> final(self)@ == (DbSpec { rules: old(self)@.rules.push(RuleSpec { name: name@, text: text@, enabled: true, effect: 0 }), ..old(self)@ })
            },
    {
        if place_of_rule(&self.rules, name).is_some() {
            return Err(GStoreError::Database(join3("rule '", name, "' already exists")));
        }
        match parsed {
            Err(e) => Err(e),
            Ok(u) => {
                self.rules.push(Rule { name: name.to_owned(), text: text.to_owned(), enabled: true, effect: 0 });
                proof {
                    let spec = RuleSpec { name: name@, text: text@, enabled: true, effect: 0 };
                    assert(rule_views(self.rules@) =~= old(self)@.rules.push(spec));
                    assert(self@ =~= (DbSpec { rules: old(self)@.rules.push(spec), ..old(self)@ }));
                }
                Ok(())
            },
        }
    }

    /// Remove a rule. Gives whether there was one with the name.
    pub fn remove_rule(&mut self, name: &str) -> (b: bool)
        requires
            old(self).wf(),
        ensures
            final(self).wf(),
            b <==> exists|k: int| 0 <= k < old(self)@.rules.len() && (#[trigger] old(self)@.rules[k]).name == name@,
            b == (rule_named(old(self)@.rules, name@) is Some),
            final(self)@ == (match rule_named(old(self)@.rules, name@) {
                Some(k) => DbSpec { rules: old(self)@.rules.remove(k), ..old(self)@ },
                None => old(self)@,
            }),
    {
        proof {
            law_rule_is_found_by_name(self@.rules, name@);
            if rule_named(self@.rules, name@) is Some {
                lemma_rule_place(self@.rules, name@);
            }
        }
        match place_of_rule(&self.rules, name) {
            None => false,
            Some(k) => {
                let gone: Rule = self.rules.remove(k);
                proof {
                    assert(rule_views(self.rules@) =~= old(self)@.rules.remove(k as int));
                    assert(self@ =~= (DbSpec { rules: old(self)@.rules.remove(k as int), ..old(self)@ }));
                }
                true
            },
        }
    }

    fn switch_rule(&mut self, name: &str, enabled: bool) -> (b: bool)
        requires
            old(self).wf(),
        ensures
            final(self).wf(),
            b <==> exists|k: int| 0 <= k < old(self)@.rules.len() && (#[trigger] old(self)@.rules[k]).name == name@,
            b == (rule_named(old(self)@.rules, name@) is Some),
            final(self)@ == (DbSpec { rules: switched(old(self)@.rules, name@, enabled), ..old(self)@ }),
    {
        proof {
            law_rule_is_found_by_name(self@.rules, name@);
            if rule_named(self@.rules, name@) is Some {
                lemma_rule_place(self@.rules, name@);
            }
        }
        match place_of_rule(&self.rules, name) {
            None => {
                assert(self@ =~= (DbSpec { rules: switched(old(self)@.rules, name@, enabled), ..old(self)@ }));
                false
            },
            Some(k) => {
                self.rules[k].enabled = enabled;
                proof {
                    assert(rule_views(self.rules@) =~= switched(old(self)@.rules, name@, enabled));
                    assert(self@ =~= (DbSpec { rules: switched(old(self)@.rules, name@, enabled), ..old(self)@ }));
                }
                true
            },
        }
    }

    /// Apply a rule from now on. Gives whether there is one with the name.
    pub fn enable_rule(&mut self, name: &str) -> (b: bool)
        requires
            old(self).wf(),
        ensures
            final(self).wf(),
            b <==> exists|k: int| 0 <= k < old(self)@.rules.len() && (#[trigger] old(self)@.rules[k]).name == name@,
            b == (rule_named(old(self)@.rules, name@) is Some),
            final(self)@ == (DbSpec { rules: switched(old(self)@.rules, name@, true), ..old(self)@ }),
    {
        self.switch_rule(name, true)
    }

    /// Do not apply a rule from now on. Gives whether there is one with the name.
    pub fn disable_rule(&mut self, name: &str) -> (b: bool)
        requires
            old(self).wf(),
        ensures
            final(self).wf(),
            b <==> exists|k: int| 0 <= k < old(self)@.rules.len() && (#[trigger] old(self)@.rules[k]).name == name@,
            b == (rule_named(old(self)@.rules, name@) is Some),
            final(self)@ == (DbSpec { rules: switched(old(self)@.rules, name@, false), ..old(self)@ }),
    {
        self.switch_rule(name, false)
    }

    /// The rules in the order in which they were defined: name, whether it is applied,
    /// and how many triples it gave last.
    pub fn list_rules(&self) -> (r: Vec<(String, bool, usize)>)
        requires
            self.wf(),
        ensures
            r@.len() == self@.rules.len(),
            forall|k: int| 0 <= k < r@.len() ==> (#[trigger] r@[k]).0@ == self@.rules[k].name && r@[k].1 == self@.rules[k].enabled && r@[k].2 == self@.rules[k].effect,
    {
        let mut r: Vec<(String, bool, usize)> = Vec::new();
        let mut i: usize = 0;
        while i < self.rules.len()
            invariant
                i <= self.rules@.len(),
                r@.len() == i,
                self@.rules == rule_views(self.rules@),
                forall|k: int| 0 <= k < i ==> (#[trigger] r@[k]).0@ == self@.rules[k].name && r@[k].1 == self@.rules[k].enabled && r@[k].2 == self@.rules[k].effect,
            decreases self.rules.len() - i,
        {
            let rule: &Rule = &self.rules[i];
            r.push((rule.name.clone(), rule.enabled, rule.effect));
            i = i + 1;
        }
        r
    }

    /// The rules, with their texts.
    pub fn rules(&self) -> (r: &Vec<Rule>)
        ensures
            rule_views(r@) == self@.rules,
    {
        &self.rules
    }

    /// How many triples a rule gave when the rules ran last.
    pub fn rule_effect_count(&self, name: &str) -> (r: Option<usize>)
        requires
            self.wf(),
        ensures
            match rule_named(self@.rules, name@) {
                Some(k) => r matches Some(n) && n == self@.rules[k].effect,
                None => r is None,
            },
    {
        match place_of_rule(&self.rules, name) {
            Some(k) => {
                assert(self@.rules[k as int] == self.rules@[k as int]@);
                Some(self.rules[k].effect)
            },
            None => None,
        }
    }

    /// Add the triples that follow by the rules that are enabled, and count for each
    /// of them how many were new. Gives the number of all new ones.
    #[verifier::spinoff_prover]
    #[verifier::rlimit(40)]
    pub fn run_rules(&mut self, inferred: Vec<Inferred>) -> (n: usize)
        requires
            old(self).wf(),
            dict_fits(changed_by_all(old(self)@, default_inserts(given_triples(given(old(self)@.rules, inferred@)))).dict),
        ensures
            final(self).wf(),
            final(self)@ == rules_ran(old(self)@, inferred@),
            n == effects(old(self)@, default_inserts(given_triples(given(old(self)@.rules, inferred@)))),
    {
        let ghost before = self@;
        let ghost gs = given(before.rules, inferred@);
        let ghost ts = given_triples(gs);
        assert(before.rules == rule_views(self.rules@));
        let (triples, places) = enabled_only(&self.rules, inferred);
        proof {
            assert(triples@ =~= ts);
            assert forall|i: int| 0 <= i < gs.len() implies #[trigger] places@[i] == gs[i].0 && gs[i].0 < before.rules.len() by {
                assert(places@.len() == gs.len());
                let p = places@[i];
                assert(p == gs[i].0);
                assert(gs[i].0 < self.rules@.len());
            }
        }
        let counts: Vec<usize> = self.insert_counted(&triples, &places, Ghost(gs));
        let ghost mid = self@;
        proof {
            lemma_rules_stay(before, default_inserts(ts));
            super::requests::lemma_no_effect_keeps_index(before, default_inserts(ts));
        }
        let n: usize = counts[counts.len() - 1];
        if n > 0 {
            self.index_valid = false;
        }
        let mut k: usize = 0;
        while k < self.rules.len()
            invariant
                k <= self.rules@.len(),
                self.rules@.len() == before.rules.len(),
                counts@.len() == before.rules.len() + 1,
                forall|j: int| 0 <= j < before.rules.len() ==> #[trigger] counts@[j] == effect_of(before, gs, j),
                forall|j: int| 0 <= j < k ==> (#[trigger] self.rules@[j])@ == counted(before, gs)[j],
                forall|j: int| k <= j < self.rules@.len() ==> (#[trigger] self.rules@[j])@ == before.rules[j],
                self.wf(),
                self@ == (DbSpec { rules: self@.rules, ..derived(before, ts) }),
            decreases self.rules.len() - k,
        {
            let ghost rules0 = self.rules@;
            let ghost db0 = self@;
            if self.rules[k].enabled {
                self.rules[k].effect = counts[k];
            }
            proof {
                assert(self.rules@ =~= rules0.update(k as int, self.rules@[k as int]));
                assert(rules0[k as int]@ == before.rules[k as int]);
                assert(counts@[k as int] == effect_of(before, gs, k as int));
                assert(self@ =~= (DbSpec { rules: self@.rules, ..db0 }));
            }
            k = k + 1;
        }
        proof {
            assert(self@.rules =~= counted(before, gs));
            assert(self@ =~= rules_ran(before, inferred@));
        }
        n
    }

    /// Insert the triples that rules gave. Gives for each rule how many of its triples
    /// were new, and behind that how many were new in all.
    #[verifier::spinoff_prover]
    #[verifier::rlimit(40)]
    fn insert_counted(&mut self, triples: &Vec<Triple>, places: &Vec<usize>, Ghost(gs): Ghost<Seq<(int, Triple)>>) -> (counts: Vec<usize>)
        requires
            old(self).wf(),
            triples@ == given_triples(gs),
            places@.len() == gs.len(),
            forall|i: int| 0 <= i < gs.len() ==> #[trigger] places@[i] == gs[i].0 && gs[i].0 < old(self)@.rules.len(),
            dict_fits(changed_by_all(old(self)@, default_inserts(triples@)).dict),
        ensures
            final(self).wf(),
            final(self)@ == changed_by_all(old(self)@, default_inserts(triples@)),
            counts@.len() == old(self)@.rules.len() + 1,
            forall|k: int| 0 <= k < old(self)@.rules.len() ==> #[trigger] counts@[k] == effect_of(old(self)@, gs, k),
            counts@[counts@.len() - 1] == effects(old(self)@, default_inserts(triples@)),
    {
        let ghost before = self@;
        let ghost cs = default_inserts(triples@);
        let count: usize = self.rules.len();
        let mut counts: Vec<usize> = Vec::new();
        let mut k: usize = 0;
        while k < count
            invariant
                k <= count,
                counts@.len() == k,
                forall|j: int| 0 <= j < k ==> #[trigger] counts@[j] == 0,
            decreases count - k,
        {
            counts.push(0);
            k = k + 1;
        }
        let mut n: usize = 0;
        let mut i: usize = 0;
        proof {
            self.lemma_finite();
            assert(cs.take(0) =~= Seq::<Change>::empty());
            assert(gs.take(0) =~= Seq::<(int, Triple)>::empty());
            assert(before.rules.len() == count);
        }
        while i < triples.len()
            invariant
                i <= triples.len(),
                n <= i,
                before == old(self)@,
                cs == default_inserts(triples@),
                triples@ == given_triples(gs),
                places@.len() == gs.len(),
                forall|i: int| 0 <= i < gs.len() ==> #[trigger] places@[i] == gs[i].0 && gs[i].0 < before.rules.len(),
                before.rules.len() == count,
                counts@.len() == count,
                forall|k: int| 0 <= k < count ==> #[trigger] counts@[k] == effect_of(before, gs.take(i as int), k),
                self.wf(),
                self@ == changed_by_all(before, cs.take(i as int)),
                n == effects(before, cs.take(i as int)),
                dict_ok(before.dict),
                dict_fits(changed_by_all(before, cs).dict),
            decreases triples.len() - i,
        {
            let ghost part = gs.take(i as int);
            let ghost more = gs.take(i + 1);
            let ghost c0 = counts@;
            proof {
                lemma_one_more(before, cs, i as int);
                lemma_change_fits(before, cs, i as int);
                assert(more.drop_last() =~= part);
                assert(more.last() == gs[i as int]);
                assert(default_inserts(given_triples(part)) =~= cs.take(i as int));
                assert(places@[i as int] == gs[i as int].0);
                lemma_effect_bound(before, part, gs[i as int].0);
            }
            let place: usize = places[i];
            if self.insert_triple(&triples[i]) {
                n = n + 1;
                counts.set(place, counts[place] + 1);
            }
            proof {
                assert forall|k: int| 0 <= k < count implies #[trigger] counts@[k] == effect_of(before, more, k) by {
                    assert(c0[k] == effect_of(before, part, k));
                }
            }
            i = i + 1;
        }
        proof {
            assert(cs.take(cs.len() as int) =~= cs);
            assert(gs.take(gs.len() as int) =~= gs);
        }
        counts.push(n);
        counts
    }

    /// Make a function known to queries by a name, in which case does not matter. Kept
    /// results go, since queries may give others now.
    pub fn register_function(&mut self, name: &str)
        requires
            old(self).wf(),
        ensures
            final(self).wf(),
            final(self)@ == (DbSpec { functions: registered(old(self)@.functions, name@), cache: Seq::empty(), ..old(self)@ }),
    {
        let low: String = lowered(name);
        let ghost names = texts(self.functions@);
        let mut found: bool = false;
        let mut i: usize = 0;
        while i < self.functions.len()
            invariant
                i <= self.functions@.len(),
                names == texts(self.functions@),
                found <==> exists|k: int| 0 <= k < i && #[trigger] names[k] == low@,
                *self == *old(self),
            decreases self.functions.len() - i,
        {
            if same(self.functions[i].as_str(), low.as_str()) {
                found = true;
                assert(names[i as int] == low@);
            }
            i = i + 1;
        }
        proof {
            if found {
                let k = choose|k: int| 0 <= k < i && #[trigger] names[k] == low@;
                assert(names.contains(low@));
            }
        }
        if !found {
            self.functions.push(low);
            assert(texts(self.functions@) =~= names.push(low@));
        }
        self.query_cache.clear();
        assert(self@ =~= (DbSpec { functions: registered(old(self)@.functions, name@), cache: Seq::empty(), ..old(self)@ }));
    }

    /// How many functions users registered.
    pub fn function_count(&self) -> (n: usize)
        ensures
            n == self@.functions.len(),
    {
        self.functions.len()
    }
}

/// The triples of rules that are enabled, and the places of the rules.
fn enabled_only(rules: &Vec<Rule>, inferred: Vec<Inferred>) -> (r: (Vec<Triple>, Vec<usize>))
    ensures
        ({
            let gs = given(rule_views(rules@), inferred@);
            &&& r.0@ == given_triples(gs)
            &&& r.1@.len() == gs.len()
            &&& forall|i: int| 0 <= i < gs.len() ==> #[trigger] r.1@[i] == gs[i].0 && gs[i].0 < rules@.len()
        }),
{
    let ghost rs = rule_views(rules@);
    let ghost all = inferred@;
    let mut triples: Vec<Triple> = Vec::new();
    let mut places: Vec<usize> = Vec::new();
    assert(all.take(0) =~= Seq::<Inferred>::empty());
    assert(triples@ =~= given_triples(given(rs, all.take(0))));
    for x in it: inferred
        invariant
            it.seq() == all,
            rs == rule_views(rules@),
            triples@ == given_triples(given(rs, all.take(it.index() as int))),
            places@.len() == given(rs, all.take(it.index() as int)).len(),
            forall|i: int| 0 <= i < places@.len() ==> #[trigger] places@[i] == given(rs, all.take(it.index() as int))[i].0 && places@[i] < rules@.len(),
    {
        let ghost k = it.index() as int;
        let ghost g0 = given(rs, all.take(k));
        proof {
            assert(x == all[k]);
            assert(all.take(k + 1).drop_last() =~= all.take(k));
        }
        match place_of_rule(rules, x.rule.as_str()) {
            Some(p) => {
                assert(rs[p as int] == rules@[p as int]@);
                if rules[p].enabled {
                    triples.push(x.triple);
                    places.push(p);
                    assert(triples@ =~= given_triples(g0.push((p as int, all[k].triple))));
                }
            },
            None => {},
        }
    }
    assert(all.take(all.len() as int) =~= all);
    (triples, places)
}

/// A registered function is known by its name in lower case from then on, with all that
/// were known before, in their places, and no other. Registering it again, in any case of
/// its letters, changes nothing, and no name is known twice.
pub proof fn law_registered_function_is_known(functions: Seq<Seq<char>>, name: Seq<char>, again: Seq<char>)
    requires
        functions.no_duplicates(),
        again.map_values(|c: char| lower(c)) == name.map_values(|c: char| lower(c)),
    ensures
        registered(functions, name).contains(name.map_values(|c: char| lower(c))),
        functions.is_prefix_of(registered(functions, name)),
        forall|f: Seq<char>| #[trigger] registered(functions, name).contains(f) ==> functions.contains(f) || f == name.map_values(|c: char| lower(c)),
        registered(registered(functions, name), again) == registered(functions, name),
        registered(functions, name).no_duplicates(),
{
    let low = name.map_values(|c: char| lower(c));
    let after = registered(functions, name);
    if functions.contains(low) {
        assert(functions =~= after.subrange(0, functions.len() as int));
    } else {
        assert(after[functions.len() as int] == low);
        assert(functions =~= after.subrange(0, functions.len() as int));
        assert forall|f: Seq<char>| #[trigger] after.contains(f) implies functions.contains(f) || f == low by {
            let i = choose|i: int| 0 <= i < after.len() && after[i] == f;
            if i < functions.len() {
                assert(functions[i] == f);
            }
        }
        assert forall|i: int, j: int| 0 <= i < after.len() && 0 <= j < after.len() && i != j implies after[i] != after[j] by {
            if i < functions.len() && j < functions.len() {
                assert(functions[i] != functions[j]);
            } else if i < functions.len() {
                assert(functions.contains(functions[i]));
            } else {
                assert(functions.contains(functions[j]));
            }
        }
    }
}

} // verus!
