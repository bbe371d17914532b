//! The run over one label: find the components in the markup, fold in the
//! fixed ones, expand the enumerated ones, drop the ignored assignments and
//! resolve each survivor into a SKU and a markup document.

use vstd::prelude::*;
use crate::component::SvgComponent;
use crate::expansion::{enumerated, expand, expansion};
use crate::ignore_condition::{any_matches, group_views, parse_group, IgnoreGroup, Pair};
use crate::output_variant::{lemma_outputs_push, markup_of, output_views, pairs_of, sku_of, Entry, OutputVariant};
use crate::text::{braced, braced_token, contains_text, occurs_in, chars_of, marker, marker_token, replace, replace_all, same_text, string_of};

verus! {

broadcast use vstd::seq_lib::group_seq_properties;

/// The character sequences of a list of strings.
pub open spec fn string_views(v: Seq<String>) -> Seq<Seq<char>> {
    v.map_values(|s: String| s@)
}

/// What the component-marker pattern captures in the markup `s`, match after
/// match, from the left.
pub uninterp spec fn marker_names_in(s: Seq<char>) -> Seq<Seq<char>>;

/// Relies on regex's `Regex::captures_iter` for the pattern
/// `<!-- component:(.*) -->`: the text of the first group of each match, in
/// the order of the matches.
#[verifier::external_body]
fn marker_captures(root: &str) -> (r: Vec<String>)
    ensures
        string_views(r@) == marker_names_in(root@),
{
    let re = regex::Regex::new(r"<!-- component:(.*) -->").unwrap();
    re.captures_iter(root).map(|c| c[1].to_string()).collect()
}

/// Each name at its first occurrence, later repeats dropped.
pub open spec fn first_occurrences(s: Seq<Seq<char>>) -> Seq<Seq<char>>
    decreases s.len(),
{
    if s.len() == 0 {
        Seq::empty()
    } else {
        let rest = first_occurrences(s.drop_last());
        if rest.contains(s.last()) {
            rest
        } else {
            rest.push(s.last())
        }
    }
}

proof fn lemma_string_views_push(v: Seq<String>, x: String)
    ensures
        string_views(v.push(x)) == string_views(v).push(x@),
{
    assert(string_views(v.push(x)) =~= string_views(v).push(x@));
}

/// The names in `found`, each once, in the order of first occurrence.
pub fn unique_names(found: &Vec<String>) -> (r: Vec<String>)
    ensures
        string_views(r@) == first_occurrences(string_views(found@)),
{
    let ghost fv = string_views(found@);
    let mut out: Vec<String> = Vec::new();
    let mut i: usize = 0;
    while i < found.len()
        invariant
            i <= found@.len(),
            fv == string_views(found@),
            string_views(out@) == first_occurrences(fv.take(i as int)),
        decreases found@.len() - i,
    {
        assert(fv.take(i + 1).drop_last() =~= fv.take(i as int));
        let ghost ov = string_views(out@);
        let mut seen = false;
        let mut k: usize = 0;
        while k < out.len()
            invariant
                k <= out@.len(),
                ov == string_views(out@),
                i < found@.len(),
                seen ==> ov.contains(found@[i as int]@),
                !seen ==> forall|m: int| 0 <= m < k ==> ov[m] != found@[i as int]@,
            decreases out@.len() - k,
        {
            if same_text(out[k].as_str(), found[i].as_str()) {
                seen = true;
                assert(ov[k as int] == found@[i as int]@);
            }
            k = k + 1;
        }
        assert(seen == ov.contains(fv[i as int]));
        if !seen {
            let name = found[i].clone();
            proof {
                lemma_string_views_push(out@, name);
            }
            out.push(name);
        }
        i = i + 1;
    }
    assert(fv.take(i as int) =~= fv);
    out
}

/// The names of the components that the markup marks, each once, in the
/// order of first occurrence.
pub fn component_names(root: &str) -> (r: Vec<String>)
    ensures
        string_views(r@) == first_occurrences(marker_names_in(root@)),
{
    let found = marker_captures(root);
    unique_names(&found)
}

/// The root markup with the marker of each fixed component replaced by its
/// fragment, one component after another.
pub open spec fn fixed_of(root: Seq<char>, cs: Seq<(String, SvgComponent)>) -> Seq<char>
    decreases cs.len(),
{
    if cs.len() == 0 {
        root
    } else {
        let rest = fixed_of(root, cs.drop_last());
        match cs.last().1 {
            SvgComponent::Single(d) => replace_all(rest, marker(cs.last().0@), d@),
            SvgComponent::Exponential(_) => rest,
        }
    }
}

/// Folds every fixed component into the root markup; enumerated components
/// are left to the assignments.
pub fn resolve_fixed(root: &str, components: &[(String, SvgComponent)]) -> (r: String)
    ensures
        r@ == fixed_of(root@, components@),
{
    let mut doc = string_of(&chars_of(root));
    let mut i: usize = 0;
    while i < components.len()
        invariant
            i <= components@.len(),
            doc@ == fixed_of(root@, components@.take(i as int)),
        decreases components@.len() - i,
    {
        assert(components@.take(i + 1).drop_last() =~= components@.take(i as int));
        assert(components@.take(i + 1).last() == components@[i as int]);
        match &components[i].1 {
            SvgComponent::Single(d) => {
                let token = marker_token(components[i].0.as_str());
                proof {
                    reveal_strlit("<!-- component:");
                }
                doc = replace(doc.as_str(), token.as_str(), d.as_str());
            },
            SvgComponent::Exponential(_) => {},
        }
        i = i + 1;
    }
    assert(components@.take(i as int) =~= components@);
    doc
}

/// The assignments that no group of `gs` matches, in their order.
pub open spec fn kept(asgs: Seq<Seq<Entry>>, gs: Seq<Seq<Pair>>) -> Seq<Seq<Entry>> {
    asgs.filter(|a: Seq<Entry>| !any_matches(gs, pairs_of(a)))
}

/// The outputs that no ignore group matches, in their order.
pub fn retain_unignored(outputs: Vec<OutputVariant>, ignore_groups: &[IgnoreGroup]) -> (r: Vec<OutputVariant>)
    ensures
        output_views(r@) == kept(output_views(outputs@), group_views(ignore_groups@)),
{
    let ghost ov = output_views(outputs@);
    let ghost gv = group_views(ignore_groups@);
    let mut out: Vec<OutputVariant> = Vec::new();
    let mut i: usize = 0;
    while i < outputs.len()
        invariant
            i <= outputs@.len(),
            ov == output_views(outputs@),
            gv == group_views(ignore_groups@),
            output_views(out@) == kept(ov.take(i as int), gv),
        decreases outputs@.len() - i,
    {
        proof {
            reveal(Seq::filter);
            assert(ov.take(i + 1).drop_last() =~= ov.take(i as int));
            assert(ov.take(i + 1).last() == outputs@[i as int]@);
        }
        if !outputs[i].should_ignore(ignore_groups) {
            let o = outputs[i].duplicate();
            proof {
                lemma_outputs_push(out@, o);
            }
            out.push(o);
        }
        i = i + 1;
    }
    assert(ov.take(i as int) =~= ov);
    out
}

/// The (SKU, markup) of one assignment, against the document in which the
/// fixed components are already folded.
pub open spec fn resolved(doc: Seq<char>, template: Seq<char>, a: Seq<Entry>) -> (Seq<char>, Seq<char>) {
    (sku_of(template, a), markup_of(doc, a))
}

/// Every output of a run, in order: one (SKU, markup) for each assignment of
/// the enumerated components that no ignore group matches.
pub open spec fn generated(
    root: Seq<char>,
    template: Seq<char>,
    cs: Seq<(String, SvgComponent)>,
    gs: Seq<Seq<Pair>>,
) -> Seq<(Seq<char>, Seq<char>)> {
    kept(expansion(enumerated(cs)), gs).map_values(
        |a: Seq<Entry>| resolved(fixed_of(root, cs), template, a),
    )
}

/// The views of a list of string pairs.
pub open spec fn text_pairs(v: Seq<(String, String)>) -> Seq<(Seq<char>, Seq<char>)> {
    v.map_values(|p: (String, String)| (p.0@, p.1@))
}

proof fn lemma_text_pairs_push(v: Seq<(String, String)>, x: (String, String))
    ensures
        text_pairs(v.push(x)) == text_pairs(v).push((x.0@, x.1@)),
{
    assert(text_pairs(v.push(x)) =~= text_pairs(v).push((x.0@, x.1@)));
}

/// Runs the whole expansion: folds in the fixed components, expands the
/// enumerated ones, drops ignored assignments and resolves each survivor
/// into its SKU and its markup.
pub fn generate(
    root: &str,
    sku_template: &str,
    components: &[(String, SvgComponent)],
    ignore_groups: &[IgnoreGroup],
) -> (r: Vec<(String, String)>)
    ensures
        text_pairs(r@) == generated(root@, sku_template@, components@, group_views(ignore_groups@)),
{
    let doc = resolve_fixed(root, components);
    let all = expand(components);
    let survivors = retain_unignored(all, ignore_groups);
    let ghost target = generated(root@, sku_template@, components@, group_views(ignore_groups@));
    let ghost sv = output_views(survivors@);
    let mut out: Vec<(String, String)> = Vec::new();
    let mut i: usize = 0;
    while i < survivors.len()
        invariant
            i <= survivors@.len(),
            sv == output_views(survivors@),
            target == sv.map_values(|a: Seq<Entry>| resolved(doc@, sku_template@, a)),
            text_pairs(out@) == target.take(i as int),
        decreases survivors@.len() - i,
    {
        let sku = survivors[i].get_sku(sku_template);
        let svg = survivors[i].duplicate().apply_to_svg(doc.as_str());
        let x = (sku, svg);
        proof {
            lemma_text_pairs_push(out@, x);
        }
        out.push(x);
        assert(text_pairs(out@) =~= target.take(i + 1));
        i = i + 1;
    }
    assert(target.take(i as int) =~= target);
    out
}

proof fn lemma_groups_push(gs: Seq<IgnoreGroup>, g: IgnoreGroup)
    ensures
        group_views(gs.push(g)) == group_views(gs).push(g@),
{
    assert(group_views(gs.push(g)) =~= group_views(gs).push(g@));
}

/// The ignore groups written in `specs`, one for each text, in order.
pub fn parse_ignore_groups(specs: &[String]) -> (r: Vec<IgnoreGroup>)
    ensures
        group_views(r@) == string_views(specs@).map_values(|s: Seq<char>| parse_group(s)),
{
    let ghost target = string_views(specs@).map_values(|s: Seq<char>| parse_group(s));
    let mut out: Vec<IgnoreGroup> = Vec::new();
    let mut i: usize = 0;
    while i < specs.len()
        invariant
            i <= specs@.len(),
            target == string_views(specs@).map_values(|s: Seq<char>| parse_group(s)),
            group_views(out@) == target.take(i as int),
        decreases specs@.len() - i,
    {
        let g = IgnoreGroup::parse(specs[i].as_str());
        proof {
            lemma_groups_push(out@, g);
        }
        out.push(g);
        assert(group_views(out@) =~= target.take(i + 1));
        i = i + 1;
    }
    assert(target.take(i as int) =~= target);
    out
}

/// How many of the assignments some group of `gs` matches.
pub open spec fn count_matching(asgs: Seq<Seq<Entry>>, gs: Seq<Seq<Pair>>) -> nat
    decreases asgs.len(),
{
    if asgs.len() == 0 {
        0
    } else {
        count_matching(asgs.drop_last(), gs) + if any_matches(gs, pairs_of(asgs.last())) {
            1nat
        } else {
            0nat
        }
    }
}

/// Filtering keeps exactly the assignments that no group matches, and
/// removes one entry for each assignment that some group matches.
pub proof fn law_filter_exact(asgs: Seq<Seq<Entry>>, gs: Seq<Seq<Pair>>)
    ensures
        forall|a: Seq<Entry>| #[trigger] kept(asgs, gs).contains(a) <==> (asgs.contains(a) && !any_matches(gs, pairs_of(a))),
        kept(asgs, gs).len() + count_matching(asgs, gs) == asgs.len(),
    decreases asgs.len(),
{
    reveal(Seq::filter);
    if asgs.len() > 0 {
        let pre = asgs.drop_last();
        law_filter_exact(pre, gs);
        assert forall|a: Seq<Entry>| #[trigger] kept(asgs, gs).contains(a) <==> (asgs.contains(a) && !any_matches(gs, pairs_of(a))) by {
            if asgs.contains(a) {
                let k = choose|k: int| 0 <= k < asgs.len() && asgs[k] == a;
                if k < pre.len() {
                    assert(pre[k] == a);
                }
            }
            if pre.contains(a) {
                let k = choose|k: int| 0 <= k < pre.len() && pre[k] == a;
                assert(asgs[k] == a);
            }
            if kept(asgs, gs).contains(a) && !kept(pre, gs).contains(a) {
                assert(kept(asgs, gs) == kept(pre, gs).push(asgs.last()));
                assert(asgs[asgs.len() - 1] == a);
            }
            if a == asgs.last() && !any_matches(gs, pairs_of(a)) {
                assert(kept(asgs, gs) == kept(pre, gs).push(asgs.last()));
                assert(kept(asgs, gs)[kept(asgs, gs).len() - 1] == a);
            }
            if kept(pre, gs).contains(a) {
                let k = choose|k: int| 0 <= k < kept(pre, gs).len() && kept(pre, gs)[k] == a;
                assert(kept(asgs, gs)[k] == a);
            }
        }
    }
}

/// Whether the SKU template holds the placeholder `{component_name}`.
pub fn in_sku(template: &str, component_name: &str) -> (r: bool)
    ensures
        r == occurs_in(template@, braced(component_name@)),
{
    let token = braced_token(component_name);
    contains_text(template, token.as_str())
}

/// The SKU of each assignment, in order, with whether some ignore group
/// matches it.
pub fn sku_report(template: &str, outputs: &[OutputVariant], ignore_groups: &[IgnoreGroup]) -> (r: Vec<(String, bool)>)
    ensures
        r@.len() == outputs@.len(),
        forall|i: int|
            0 <= i < r@.len() ==> (#[trigger] r@[i]).0@ == sku_of(template@, outputs@[i]@) && r@[i].1 == any_matches(
                group_views(ignore_groups@),
                pairs_of(outputs@[i]@),
            ),
{
    let mut out: Vec<(String, bool)> = Vec::new();
    let mut i: usize = 0;
    while i < outputs.len()
        invariant
            i <= outputs@.len(),
            out@.len() == i,
            forall|k: int|
                0 <= k < i ==> (#[trigger] out@[k]).0@ == sku_of(template@, outputs@[k]@) && out@[k].1 == any_matches(
                    group_views(ignore_groups@),
                    pairs_of(outputs@[k]@),
                ),
        decreases outputs@.len() - i,
    {
        let sku = outputs[i].get_sku(template);
        let ignored = outputs[i].should_ignore(ignore_groups);
        out.push((sku, ignored));
        i = i + 1;
    }
    out
}

} // verus!
