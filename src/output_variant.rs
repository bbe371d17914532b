//! Assignments: one chosen variant for each enumerated component, and what
//! an assignment makes of the SKU template and of the markup.

use vstd::prelude::*;
use crate::component::{variant_views, SvgComponentVariant};
use crate::ignore_condition::{any_matches, group_views, pair_views, IgnoreGroup, Pair};
use crate::text::{law_replace_absent, occurs_in, braced, braced_token, marker, marker_token, replace, replace_all, same_text};

verus! {

/// A component name with the (name, fragment) of the variant chosen for it.
pub type Entry = (Seq<char>, (Seq<char>, Seq<char>));

/// The assignment chooses some variant for component `n`.
pub open spec fn has_key(a: Seq<Entry>, n: Seq<char>) -> bool {
    exists|k: int| 0 <= k < a.len() && (#[trigger] a[k]).0 == n
}

/// No component is chosen for twice.
pub open spec fn unique_keys(a: Seq<Entry>) -> bool {
    forall|i: int, j: int| 0 <= i < a.len() && 0 <= j < a.len() && i != j ==> (#[trigger] a[i]).0 != (#[trigger] a[j]).0
}

/// The components that the assignment covers.
pub open spec fn keys_of(a: Seq<Entry>) -> Set<Seq<char>> {
    Set::new(|n: Seq<char>| has_key(a, n))
}

/// The assignment with variant `v` chosen for component `n`: an earlier choice
/// for `n` is replaced in place, otherwise the choice is added at the end.
pub open spec fn assign(a: Seq<Entry>, n: Seq<char>, v: (Seq<char>, Seq<char>)) -> Seq<Entry> {
    if has_key(a, n) {
        Seq::new(a.len(), |k: int| if a[k].0 == n { (n, v) } else { a[k] })
    } else {
        a.push((n, v))
    }
}

/// The (component, variant name) pairs of an assignment, as ignore rules see it.
pub open spec fn pairs_of(a: Seq<Entry>) -> Seq<Pair> {
    a.map_values(|e: Entry| (e.0, e.1.0))
}

/// The SKU template with each `{component}` replaced by the chosen variant's
/// name, one entry after another.
pub open spec fn sku_of(t: Seq<char>, a: Seq<Entry>) -> Seq<char>
    decreases a.len(),
{
    if a.len() == 0 {
        t
    } else {
        replace_all(sku_of(t, a.drop_last()), braced(a.last().0), a.last().1.0)
    }
}

/// The markup with each component's marker replaced by the chosen variant's
/// fragment, one entry after another.
pub open spec fn markup_of(svg: Seq<char>, a: Seq<Entry>) -> Seq<char>
    decreases a.len(),
{
    if a.len() == 0 {
        svg
    } else {
        replace_all(markup_of(svg, a.drop_last()), marker(a.last().0), a.last().1.1)
    }
}

/// The entries that a list of (component name, variant) pairs stands for.
pub open spec fn entries_view(cv: Seq<(String, SvgComponentVariant)>) -> Seq<Entry> {
    cv.map_values(|e: (String, SvgComponentVariant)| (e.0@, e.1@))
}

/// One candidate output: the variant chosen for each enumerated component,
/// in the order in which the components were added.
#[derive(Debug, Clone)]
pub struct OutputVariant {
    pub component_variants: Vec<(String, SvgComponentVariant)>,
}

impl View for OutputVariant {
    type V = Seq<Entry>;

    open spec fn view(&self) -> Seq<Entry> {
        entries_view(self.component_variants@)
    }
}

/// The views of a list of outputs.
pub open spec fn output_views(os: Seq<OutputVariant>) -> Seq<Seq<Entry>> {
    os.map_values(|o: OutputVariant| o@)
}

proof fn lemma_entries_push(cv: Seq<(String, SvgComponentVariant)>, x: (String, SvgComponentVariant))
    ensures
        entries_view(cv.push(x)) == entries_view(cv).push((x.0@, x.1@)),
{
    assert(entries_view(cv.push(x)) =~= entries_view(cv).push((x.0@, x.1@)));
}

/// The views of a list grow with the list.
pub proof fn lemma_outputs_push(os: Seq<OutputVariant>, x: OutputVariant)
    ensures
        output_views(os.push(x)) == output_views(os).push(x@),
{
    assert(output_views(os.push(x)) =~= output_views(os).push(x@));
}

proof fn lemma_pair_views_push<'a>(v: Seq<(&'a str, &'a str)>, x: (&'a str, &'a str))
    ensures
        pair_views(v.push(x)) == pair_views(v).push((x.0@, x.1@)),
{
    assert(pair_views(v.push(x)) =~= pair_views(v).push((x.0@, x.1@)));
}

proof fn lemma_marker_nonempty(n: Seq<char>)
    ensures
        marker(n).len() > 0,
{
    reveal_strlit("<!-- component:");
}

impl OutputVariant {
    /// The assignment that chooses nothing yet.
    pub fn new() -> (r: OutputVariant)
        ensures
            r@ == Seq::<Entry>::empty(),
    {
        let r = OutputVariant { component_variants: Vec::new() };
        assert(r@ =~= Seq::<Entry>::empty());
        r
    }

    /// A copy of this assignment.
    pub fn duplicate(&self) -> (r: OutputVariant)
        ensures
            r@ == self@,
    {
        let mut cv: Vec<(String, SvgComponentVariant)> = Vec::new();
        let mut i: usize = 0;
        while i < self.component_variants.len()
            invariant
                i <= self@.len(),
                entries_view(cv@) == self@.take(i as int),
            decreases self@.len() - i,
        {
            let e = &self.component_variants[i];
            let x = (e.0.clone(), e.1.duplicate());
            proof {
                lemma_entries_push(cv@, x);
            }
            cv.push(x);
            assert(entries_view(cv@) =~= self@.take(i + 1));
            i = i + 1;
        }
        let r = OutputVariant { component_variants: cv };
        assert(self@.take(i as int) =~= self@);
        r
    }

    /// This assignment with `variant` chosen for `component_name`.
    pub fn with_choice(&self, component_name: &str, variant: &SvgComponentVariant) -> (r: OutputVariant)
        ensures
            r@ == assign(self@, component_name@, variant@),
            unique_keys(self@) ==> unique_keys(r@) && keys_of(r@) == keys_of(self@).insert(component_name@),
            r@.len() == if has_key(self@, component_name@) { self@.len() } else { self@.len() + 1 },
    {
        let ghost n = component_name@;
        let ghost a = self@;
        let mut cv: Vec<(String, SvgComponentVariant)> = Vec::new();
        let mut found = false;
        let mut i: usize = 0;
        while i < self.component_variants.len()
            invariant
                i <= a.len(),
                a == self@,
                n == component_name@,
                found == has_key(a.take(i as int), n),
                entries_view(cv@) == Seq::new(
                    i as nat,
                    |k: int| if a[k].0 == n { (n, variant@) } else { a[k] },
                ),
            decreases a.len() - i,
        {
            let e = &self.component_variants[i];
            proof {
                let t0 = a.take(i as int);
                let t1 = a.take(i + 1);
                assert(has_key(t1, n) == (has_key(t0, n) || a[i as int].0 == n)) by {
                    if has_key(t0, n) {
                        let k = choose|k: int| 0 <= k < t0.len() && (#[trigger] t0[k]).0 == n;
                        assert(t1[k] == t0[k]);
                    }
                    if a[i as int].0 == n {
                        assert(t1[i as int].0 == n);
                    }
                    if has_key(t1, n) {
                        let k = choose|k: int| 0 <= k < t1.len() && (#[trigger] t1[k]).0 == n;
                        if k < i {
                            assert(t1[k] == t0[k]);
                        }
                    }
                }
            }
            let x = if same_text(e.0.as_str(), component_name) {
                found = true;
                (e.0.clone(), variant.duplicate())
            } else {
                (e.0.clone(), e.1.duplicate())
            };
            proof {
                lemma_entries_push(cv@, x);
            }
            cv.push(x);
            assert(entries_view(cv@) =~= Seq::new(
                (i + 1) as nat,
                |k: int| if a[k].0 == n { (n, variant@) } else { a[k] },
            ));
            i = i + 1;
        }
        assert(a.take(i as int) =~= a);
        if !found {
            let x = (crate::text::string_of(&crate::text::chars_of(component_name)), variant.duplicate());
            proof {
                lemma_entries_push(cv@, x);
            }
            cv.push(x);
            assert(entries_view(cv@) =~= a.push((n, variant@)));
        }
        let r = OutputVariant { component_variants: cv };
        proof {
            if unique_keys(a) {
                law_assign_keys(a, n, variant@);
            }
        }
        r
    }

    /// One assignment per variant of the component, in the variants' order:
    /// this assignment with that variant chosen for `component_name`.
    pub fn add_variants(self, component_name: &str, component_variants: &[SvgComponentVariant]) -> (r: Vec<OutputVariant>)
        ensures
            output_views(r@) == variant_views(component_variants@).map_values(
                |v: (Seq<char>, Seq<char>)| assign(self@, component_name@, v),
            ),
            forall|i: int|
                0 <= i < r@.len() ==> (unique_keys(self@) ==> unique_keys(#[trigger] r@[i]@) && keys_of(r@[i]@) == keys_of(self@).insert(component_name@)),
            forall|i: int|
                0 <= i < r@.len() ==> (#[trigger] r@[i]@).len() == if has_key(self@, component_name@) { self@.len() } else { self@.len() + 1 },
    {
        let ghost target = variant_views(component_variants@).map_values(
            |v: (Seq<char>, Seq<char>)| assign(self@, component_name@, v),
        );
        let mut variants: Vec<OutputVariant> = Vec::new();
        let mut i: usize = 0;
        while i < component_variants.len()
            invariant
                i <= component_variants@.len(),
                target == variant_views(component_variants@).map_values(
                    |v: (Seq<char>, Seq<char>)| assign(self@, component_name@, v),
                ),
                output_views(variants@) == target.take(i as int),
            decreases component_variants@.len() - i,
        {
            let o = self.with_choice(component_name, &component_variants[i]);
            proof {
                lemma_outputs_push(variants@, o);
            }
            variants.push(o);
            assert(output_views(variants@) =~= target.take(i + 1));
            i = i + 1;
        }
        assert(target.take(i as int) =~= target);
        assert forall|k: int| 0 <= k < variants@.len() implies (unique_keys(self@) ==> unique_keys(#[trigger] variants@[k]@) && keys_of(variants@[k]@) == keys_of(self@).insert(component_name@)) && variants@[k]@.len() == if has_key(self@, component_name@) { self@.len() } else { self@.len() + 1 } by {
            assert(output_views(variants@)[k] == variants@[k]@);
            if unique_keys(self@) {
                law_assign_keys(self@, component_name@, variant_views(component_variants@)[k]);
            }
            law_assign_len(self@, component_name@, variant_views(component_variants@)[k]);
        }
        variants
    }

    /// Whether some group of `ignore_groups` matches this assignment.
    pub fn should_ignore(&self, ignore_groups: &[IgnoreGroup]) -> (r: bool)
        ensures
            r == any_matches(group_views(ignore_groups@), pairs_of(self@)),
    {
        let mut v: Vec<(&str, &str)> = Vec::new();
        let mut i: usize = 0;
        while i < self.component_variants.len()
            invariant
                i <= self@.len(),
                pair_views(v@) == pairs_of(self@).take(i as int),
            decreases self@.len() - i,
        {
            let e = &self.component_variants[i];
            let x = (e.0.as_str(), e.1.name.as_str());
            proof {
                lemma_pair_views_push(v@, x);
            }
            v.push(x);
            assert(pair_views(v@) =~= pairs_of(self@).take(i + 1));
            i = i + 1;
        }
        assert(pairs_of(self@).take(i as int) =~= pairs_of(self@));
        let ghost gv = group_views(ignore_groups@);
        let mut j: usize = 0;
        while j < ignore_groups.len()
            invariant
                j <= ignore_groups@.len(),
                gv == group_views(ignore_groups@),
                pair_views(v@) == pairs_of(self@),
                forall|k: int| 0 <= k < j ==> !crate::ignore_condition::group_matches(#[trigger] gv[k], pairs_of(self@)),
            decreases ignore_groups@.len() - j,
        {
            if ignore_groups[j].matches(v.as_slice()) {
                assert(crate::ignore_condition::group_matches(gv[j as int], pairs_of(self@)));
                return true;
            }
            j = j + 1;
        }
        false
    }

    /// The SKU template with each `{component}` replaced, everywhere, by the
    /// name of the variant chosen for it.
    pub fn get_sku(&self, template: &str) -> (r: String)
        ensures
            r@ == sku_of(template@, self@),
    {
        let mut sku = crate::text::string_of(&crate::text::chars_of(template));
        let mut i: usize = 0;
        while i < self.component_variants.len()
            invariant
                i <= self@.len(),
                sku@ == sku_of(template@, self@.take(i as int)),
            decreases self@.len() - i,
        {
            let e = &self.component_variants[i];
            let token = braced_token(e.0.as_str());
            assert(self@.take(i + 1).drop_last() =~= self@.take(i as int));
            sku = replace(sku.as_str(), token.as_str(), e.1.name.as_str());
            i = i + 1;
        }
        assert(self@.take(i as int) =~= self@);
        sku
    }

    /// The markup with each component's marker replaced, everywhere, by the
    /// fragment of the variant chosen for it.
    pub fn apply_to_svg(self, svg: &str) -> (r: String)
        ensures
            r@ == markup_of(svg@, self@),
    {
        let mut out = crate::text::string_of(&crate::text::chars_of(svg));
        let mut i: usize = 0;
        while i < self.component_variants.len()
            invariant
                i <= self@.len(),
                out@ == markup_of(svg@, self@.take(i as int)),
            decreases self@.len() - i,
        {
            let e = &self.component_variants[i];
            let token = marker_token(e.0.as_str());
            proof {
                lemma_marker_nonempty(e.0@);
            }
            assert(self@.take(i + 1).drop_last() =~= self@.take(i as int));
            out = replace(out.as_str(), token.as_str(), e.1.data.as_str());
            i = i + 1;
        }
        assert(self@.take(i as int) =~= self@);
        out
    }
}

/// Choosing a variant for a component keeps the keys unique and adds that
/// component to the key set; it adds an entry only for a new component.
pub proof fn law_assign_keys(b: Seq<Entry>, n: Seq<char>, v: (Seq<char>, Seq<char>))
    requires
        unique_keys(b),
    ensures
        unique_keys(assign(b, n, v)),
        keys_of(assign(b, n, v)) == keys_of(b).insert(n),
        assign(b, n, v).len() == if has_key(b, n) { b.len() } else { b.len() + 1 },
{
    let a = assign(b, n, v);
    if has_key(b, n) {
        assert forall|m: Seq<char>| has_key(a, m) <==> has_key(b, m) || m == n by {
            if has_key(a, m) {
                let k = choose|k: int| 0 <= k < a.len() && (#[trigger] a[k]).0 == m;
                if b[k].0 != n {
                    assert(b[k].0 == m);
                }
            }
            if has_key(b, m) {
                let k = choose|k: int| 0 <= k < b.len() && (#[trigger] b[k]).0 == m;
                assert(a[k].0 == m);
            }
            if m == n {
                let k = choose|k: int| 0 <= k < b.len() && (#[trigger] b[k]).0 == n;
                assert(a[k].0 == m);
            }
        }
    } else {
        assert forall|m: Seq<char>| has_key(a, m) <==> has_key(b, m) || m == n by {
            if has_key(a, m) {
                let k = choose|k: int| 0 <= k < a.len() && (#[trigger] a[k]).0 == m;
                if k < b.len() {
                    assert(b[k].0 == m);
                }
            }
            if has_key(b, m) {
                let k = choose|k: int| 0 <= k < b.len() && (#[trigger] b[k]).0 == m;
                assert(a[k].0 == m);
            }
            if m == n {
                assert(a[b.len() as int].0 == m);
            }
        }
        assert forall|i: int, j: int| 0 <= i < a.len() && 0 <= j < a.len() && i != j implies (#[trigger] a[i]).0 != (#[trigger] a[j]).0 by {
            if i == b.len() {
                assert(!(b[j].0 == n));
            } else if j == b.len() {
                assert(!(b[i].0 == n));
            } else {
                assert(b[i].0 != b[j].0);
            }
        }
    }
    assert(keys_of(a) =~= keys_of(b).insert(n));
}

proof fn law_assign_len(b: Seq<Entry>, n: Seq<char>, v: (Seq<char>, Seq<char>))
    ensures
        assign(b, n, v).len() == if has_key(b, n) { b.len() } else { b.len() + 1 },
{
}

/// A template in which no chosen component's `{name}` occurs resolves to
/// itself, and resolving it again changes nothing.
pub proof fn law_sku_without_placeholders(t: Seq<char>, a: Seq<Entry>)
    requires
        forall|k: int| 0 <= k < a.len() ==> !occurs_in(t, braced(#[trigger] a[k].0)),
    ensures
        sku_of(t, a) == t,
        sku_of(sku_of(t, a), a) == sku_of(t, a),
    decreases a.len(),
{
    if a.len() > 0 {
        let pre = a.drop_last();
        assert forall|k: int| 0 <= k < pre.len() implies !occurs_in(t, braced(#[trigger] pre[k].0)) by {
            assert(pre[k] == a[k]);
        }
        law_sku_without_placeholders(t, pre);
        assert(!occurs_in(t, braced(a[a.len() - 1].0)));
        law_replace_absent(t, braced(a.last().0), a.last().1.0);
    }
}

/// Markup in which no chosen component's marker occurs is left as it is, and
/// applying the assignment again changes nothing.
pub proof fn law_markup_without_markers(svg: Seq<char>, a: Seq<Entry>)
    requires
        forall|k: int| 0 <= k < a.len() ==> !occurs_in(svg, marker(#[trigger] a[k].0)),
    ensures
        markup_of(svg, a) == svg,
        markup_of(markup_of(svg, a), a) == markup_of(svg, a),
    decreases a.len(),
{
    if a.len() > 0 {
        let pre = a.drop_last();
        assert forall|k: int| 0 <= k < pre.len() implies !occurs_in(svg, marker(#[trigger] pre[k].0)) by {
            assert(pre[k] == a[k]);
        }
        law_markup_without_markers(svg, pre);
        assert(!occurs_in(svg, marker(a[a.len() - 1].0)));
        law_replace_absent(svg, marker(a.last().0), a.last().1.1);
    }
}

} // verus!
