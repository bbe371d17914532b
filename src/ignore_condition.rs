//! Ignore rules: a group of `component:variant` conditions excludes every
//! assignment that satisfies all of them.

use vstd::prelude::*;
use crate::text::{chars_of, split_chars, split_on, string_of, views_of};

verus! {

/// One (component name, variant name) pair of an assignment.
pub type Pair = (Seq<char>, Seq<char>);

/// The pairs that a slice of string pairs stands for.
pub open spec fn pair_views(v: Seq<(&str, &str)>) -> Seq<Pair> {
    v.map_values(|p: (&str, &str)| (p.0@, p.1@))
}

/// A condition holds of an assignment that chooses exactly its variant for
/// its component.
pub open spec fn condition_holds(c: Pair, pairs: Seq<Pair>) -> bool {
    pairs.contains(c)
}

/// A group matches an assignment when all its conditions hold; an empty
/// group matches every assignment.
pub open spec fn group_matches(g: Seq<Pair>, pairs: Seq<Pair>) -> bool {
    forall|k: int| 0 <= k < g.len() ==> condition_holds(#[trigger] g[k], pairs)
}

/// Some group of the rule set matches the assignment.
pub open spec fn any_matches(gs: Seq<Seq<Pair>>, pairs: Seq<Pair>) -> bool {
    exists|j: int| 0 <= j < gs.len() && group_matches(#[trigger] gs[j], pairs)
}

/// The condition written `component:variant`: the text before the first colon
/// and the text between the first and the second colon. Text without a colon
/// is no condition.
pub open spec fn parse_condition(s: Seq<char>) -> Option<Pair> {
    let pieces = split_on(s, ':');
    if pieces.len() >= 2 {
        Some((pieces[0], pieces[1]))
    } else {
        None
    }
}

/// The conditions among the given texts, in order, with those that are no
/// condition dropped.
pub open spec fn parse_conditions(pieces: Seq<Seq<char>>) -> Seq<Pair>
    decreases pieces.len(),
{
    if pieces.len() == 0 {
        Seq::empty()
    } else {
        let rest = parse_conditions(pieces.drop_last());
        match parse_condition(pieces.last()) {
            Some(c) => rest.push(c),
            None => rest,
        }
    }
}

/// The group written as comma-separated conditions.
pub open spec fn parse_group(s: Seq<char>) -> Seq<Pair> {
    parse_conditions(split_on(s, ','))
}

#[derive(Debug, Clone)]
pub struct IgnoreCondition {
    pub component: String,
    pub variant: String,
}

impl View for IgnoreCondition {
    type V = Pair;

    open spec fn view(&self) -> Pair {
        (self.component@, self.variant@)
    }
}

#[derive(Debug, Clone)]
pub struct IgnoreGroup {
    pub conditions: Vec<IgnoreCondition>,
}

impl View for IgnoreGroup {
    type V = Seq<Pair>;

    open spec fn view(&self) -> Seq<Pair> {
        self.conditions@.map_values(|c: IgnoreCondition| c@)
    }
}

/// The rule set that a slice of groups stands for.
pub open spec fn group_views(gs: Seq<IgnoreGroup>) -> Seq<Seq<Pair>> {
    gs.map_values(|g: IgnoreGroup| g@)
}

impl IgnoreCondition {
    /// Whether the assignment, given as (component, variant) pairs, chooses
    /// this condition's variant for its component.
    pub fn matches(&self, variants: &[(&str, &str)]) -> (r: bool)
        ensures
            r == condition_holds(self@, pair_views(variants@)),
    {
        let ghost pv = pair_views(variants@);
        let mut i: usize = 0;
        while i < variants.len()
            invariant
                i <= variants@.len(),
                pv == pair_views(variants@),
                forall|k: int| 0 <= k < i ==> pv[k] != self@,
            decreases variants@.len() - i,
        {
            let (c, v) = variants[i];
            if crate::text::same_text(c, self.component.as_str()) && crate::text::same_text(
                v,
                self.variant.as_str(),
            ) {
                assert(pv[i as int] == self@);
                return true;
            }
            i = i + 1;
        }
        assert(!pv.contains(self@));
        false
    }

    /// Reads `component:variant`; `None` where the text holds no colon.
    pub fn parse(s: &str) -> (r: Option<IgnoreCondition>)
        ensures
            r.is_some() == parse_condition(s@).is_some(),
            r.is_some() ==> parse_condition(s@) == Some(r->0@),
    {
        let pieces = split_chars(&chars_of(s), ':');
        if pieces.len() >= 2 {
            Some(IgnoreCondition { component: string_of(&pieces[0]), variant: string_of(&pieces[1]) })
        } else {
            None
        }
    }
}

impl IgnoreGroup {
    /// Whether every condition of the group holds of the assignment.
    pub fn matches(&self, variants: &[(&str, &str)]) -> (r: bool)
        ensures
            r == group_matches(self@, pair_views(variants@)),
    {
        let mut i: usize = 0;
        while i < self.conditions.len()
            invariant
                i <= self.conditions@.len(),
                forall|k: int|
                    0 <= k < i ==> condition_holds(#[trigger] self@[k], pair_views(variants@)),
            decreases self.conditions@.len() - i,
        {
            if !self.conditions[i].matches(variants) {
                assert(!condition_holds(self@[i as int], pair_views(variants@)));
                return false;
            }
            i = i + 1;
        }
        true
    }

    /// Reads comma-separated conditions, dropping the pieces that are no
    /// condition.
    pub fn parse(s: &str) -> (r: IgnoreGroup)
        ensures
            r@ == parse_group(s@),
    {
        let pieces = split_chars(&chars_of(s), ',');
        let ghost pv = views_of(pieces@);
        let mut conditions: Vec<IgnoreCondition> = Vec::new();
        let mut i: usize = 0;
        while i < pieces.len()
            invariant
                i <= pieces@.len(),
                pv == views_of(pieces@),
                conditions@.map_values(|c: IgnoreCondition| c@) == parse_conditions(
                    pv.take(i as int),
                ),
            decreases pieces@.len() - i,
        {
            assert(pv.take(i + 1).drop_last() =~= pv.take(i as int));
            let text = string_of(&pieces[i]);
            match IgnoreCondition::parse(text.as_str()) {
                Some(c) => {
                    conditions.push(c);
                    assert(conditions@.map_values(|c: IgnoreCondition| c@) =~= parse_conditions(
                        pv.take(i as int),
                    ).push(c@));
                },
                None => {},
            }
            i = i + 1;
        }
        assert(pv.take(i as int) =~= pv);
        IgnoreGroup { conditions }
    }
}

impl std::str::FromStr for IgnoreCondition {
    type Err = ();

    fn from_str(s: &str) -> (r: Result<IgnoreCondition, ()>)
        ensures
            r.is_ok() == parse_condition(s@).is_some(),
            r.is_ok() ==> parse_condition(s@) == Some(r->Ok_0@),
    {
        match IgnoreCondition::parse(s) {
            Some(c) => Ok(c),
            None => Err(()),
        }
    }
}

impl std::str::FromStr for IgnoreGroup {
    type Err = std::convert::Infallible;

    fn from_str(s: &str) -> (r: Result<IgnoreGroup, std::convert::Infallible>)
        ensures
            r matches Ok(g) && g@ == parse_group(s@),
    {
        Ok(IgnoreGroup::parse(s))
    }
}

/// A group without conditions matches every assignment.
pub proof fn law_empty_group_matches(pairs: Seq<Pair>)
    ensures
        group_matches(Seq::empty(), pairs),
{
}

/// A rule set matches exactly when one of its groups does: an empty rule set
/// matches nothing, and adding a group ORs its verdict into the set's.
pub proof fn law_any_matches_is_or(gs: Seq<Seq<Pair>>, g: Seq<Pair>, pairs: Seq<Pair>)
    ensures
        !any_matches(Seq::empty(), pairs),
        any_matches(gs.push(g), pairs) == (any_matches(gs, pairs) || group_matches(g, pairs)),
{
    let gs2 = gs.push(g);
    if any_matches(gs2, pairs) {
        let j = choose|j: int| 0 <= j < gs2.len() && group_matches(#[trigger] gs2[j], pairs);
        if j < gs.len() {
            assert(gs[j] == gs2[j]);
        }
    }
    if any_matches(gs, pairs) {
        let j = choose|j: int| 0 <= j < gs.len() && group_matches(#[trigger] gs[j], pairs);
        assert(gs2[j] == gs[j]);
    }
    if group_matches(g, pairs) {
        assert(gs2[gs.len() as int] == g);
    }
}

} // verus!
