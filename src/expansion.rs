//! The cartesian product of the enumerated components' variants.

use vstd::prelude::*;
use crate::component::{variant_views, SvgComponent};
use crate::output_variant::{assign, keys_of, law_assign_keys, output_views, unique_keys, Entry, OutputVariant};

verus! {

/// An enumerated component: its name and the (name, fragment) of each variant.
pub type Choice = (Seq<char>, Seq<(Seq<char>, Seq<char>)>);

/// The enumerated components among `cs`, in order.
pub open spec fn enumerated(cs: Seq<(String, SvgComponent)>) -> Seq<Choice>
    decreases cs.len(),
{
    if cs.len() == 0 {
        Seq::empty()
    } else {
        let rest = enumerated(cs.drop_last());
        match cs.last().1 {
            SvgComponent::Exponential(vs) => rest.push((cs.last().0@, variant_views(vs@))),
            SvgComponent::Single(_) => rest,
        }
    }
}

/// For every assignment in turn, and every variant in turn, the assignment
/// with that variant chosen for component `n`.
pub open spec fn extend_all(
    asgs: Seq<Seq<Entry>>,
    n: Seq<char>,
    vars: Seq<(Seq<char>, Seq<char>)>,
) -> Seq<Seq<Entry>>
    decreases asgs.len(),
{
    if asgs.len() == 0 {
        Seq::empty()
    } else {
        extend_all(asgs.drop_last(), n, vars) + vars.map_values(
            |v: (Seq<char>, Seq<char>)| assign(asgs.last(), n, v),
        )
    }
}

/// Every assignment of the components `ecs`: starting from the empty
/// assignment, each component in turn multiplies the list by its variants.
pub open spec fn expansion(ecs: Seq<Choice>) -> Seq<Seq<Entry>>
    decreases ecs.len(),
{
    if ecs.len() == 0 {
        seq![Seq::empty()]
    } else {
        extend_all(expansion(ecs.drop_last()), ecs.last().0, ecs.last().1)
    }
}

/// The product of the components' variant counts.
pub open spec fn product_of_counts(ecs: Seq<Choice>) -> nat
    decreases ecs.len(),
{
    if ecs.len() == 0 {
        1
    } else {
        product_of_counts(ecs.drop_last()) * ecs.last().1.len()
    }
}

/// The names of the components `ecs`.
pub open spec fn names_of(ecs: Seq<Choice>) -> Set<Seq<char>> {
    Set::new(|n: Seq<char>| exists|i: int| 0 <= i < ecs.len() && (#[trigger] ecs[i]).0 == n)
}

proof fn lemma_outputs_append(a: Seq<OutputVariant>, b: Seq<OutputVariant>)
    ensures
        output_views(a + b) == output_views(a) + output_views(b),
{
    assert(output_views(a + b) =~= output_views(a) + output_views(b));
}

/// All assignments of the enumerated components among `components`, in a
/// fixed order: the first component's variant changes slowest.
pub fn expand(components: &[(String, SvgComponent)]) -> (r: Vec<OutputVariant>)
    ensures
        output_views(r@) == expansion(enumerated(components@)),
        r@.len() == product_of_counts(enumerated(components@)),
        forall|i: int|
            0 <= i < r@.len() ==> unique_keys(#[trigger] r@[i]@) && keys_of(r@[i]@) == names_of(
                enumerated(components@),
            ),
{
    let mut outs: Vec<OutputVariant> = vec![OutputVariant::new()];
    assert(output_views(outs@) =~= expansion(enumerated(components@.take(0))));
    let mut i: usize = 0;
    while i < components.len()
        invariant
            i <= components@.len(),
            output_views(outs@) == expansion(enumerated(components@.take(i as int))),
        decreases components@.len() - i,
    {
        assert(components@.take(i + 1).drop_last() =~= components@.take(i as int));
        let name = &components[i].0;
        match &components[i].1 {
            SvgComponent::Exponential(vs) => {
                let ghost vars = variant_views(vs@);
                let ghost cur = output_views(outs@);
                let mut next: Vec<OutputVariant> = Vec::new();
                let mut j: usize = 0;
                while j < outs.len()
                    invariant
                        j <= outs@.len(),
                        cur == output_views(outs@),
                        vars == variant_views(vs@),
                        output_views(next@) == extend_all(cur.take(j as int), name@, vars),
                    decreases outs@.len() - j,
                {
                    let mut more = outs[j].duplicate().add_variants(name.as_str(), vs.as_slice());
                    proof {
                        lemma_outputs_append(next@, more@);
                        assert(cur.take(j + 1).drop_last() =~= cur.take(j as int));
                    }
                    next.append(&mut more);
                    j = j + 1;
                }
                assert(cur.take(j as int) =~= cur);
                proof {
                    let prev = enumerated(components@.take(i as int));
                    assert(components@.take(i + 1).last() == components@[i as int]);
                    assert(enumerated(components@.take(i + 1)) == prev.push((name@, vars)));
                    assert(prev.push((name@, vars)).drop_last() =~= prev);
                }
                outs = next;
            },
            SvgComponent::Single(_) => {
                assert(components@.take(i + 1).last() == components@[i as int]);
            },
        }
        i = i + 1;
    }
    assert(components@.take(i as int) =~= components@);
    proof {
        let ecs = enumerated(components@);
        law_expansion_count(ecs);
        assert forall|k: int| 0 <= k < outs@.len() implies unique_keys(#[trigger] outs@[k]@) && keys_of(outs@[k]@) == names_of(ecs) by {
            assert(output_views(outs@)[k] == outs@[k]@);
            law_expansion_keys(ecs, k);
        }
    }
    outs
}

proof fn lemma_extend_all_len(asgs: Seq<Seq<Entry>>, n: Seq<char>, vars: Seq<(Seq<char>, Seq<char>)>)
    ensures
        extend_all(asgs, n, vars).len() == asgs.len() * vars.len(),
    decreases asgs.len(),
{
    if asgs.len() > 0 {
        lemma_extend_all_len(asgs.drop_last(), n, vars);
        let k = asgs.len() as int;
        let m = vars.len() as int;
        assert((k - 1) * m + m == k * m) by (nonlinear_arith);
    }
}

/// The number of assignments is the product of the components' variant
/// counts; a component without variants leaves no assignment at all.
pub proof fn law_expansion_count(ecs: Seq<Choice>)
    ensures
        expansion(ecs).len() == product_of_counts(ecs),
        (exists|i: int| 0 <= i < ecs.len() && (#[trigger] ecs[i]).1.len() == 0) ==> expansion(ecs).len() == 0,
    decreases ecs.len(),
{
    if ecs.len() > 0 {
        let pre = ecs.drop_last();
        law_expansion_count(pre);
        lemma_extend_all_len(expansion(pre), ecs.last().0, ecs.last().1);
        if exists|i: int| 0 <= i < ecs.len() && (#[trigger] ecs[i]).1.len() == 0 {
            let i = choose|i: int| 0 <= i < ecs.len() && (#[trigger] ecs[i]).1.len() == 0;
            if i < ecs.len() - 1 {
                assert(pre[i] == ecs[i]);
            }
            assert(expansion(pre).len() * ecs.last().1.len() == 0) by (nonlinear_arith)
                requires
                    expansion(pre).len() == 0 || ecs.last().1.len() == 0,
            ;
        }
    }
}

proof fn lemma_extend_all_members(asgs: Seq<Seq<Entry>>, n: Seq<char>, vars: Seq<(Seq<char>, Seq<char>)>, k: int)
    requires
        0 <= k < extend_all(asgs, n, vars).len(),
    ensures
        exists|b: int, v: int|
            0 <= b < asgs.len() && 0 <= v < vars.len() && extend_all(asgs, n, vars)[k] == assign(
                #[trigger] asgs[b],
                n,
                #[trigger] vars[v],
            ),
    decreases asgs.len(),
{
    let pre = asgs.drop_last();
    let head = extend_all(pre, n, vars);
    if k < head.len() {
        lemma_extend_all_members(pre, n, vars, k);
        let (b, v) = choose|b: int, v: int|
            0 <= b < pre.len() && 0 <= v < vars.len() && head[k] == assign(#[trigger] pre[b], n, #[trigger] vars[v]);
        assert(asgs[b] == pre[b]);
    } else {
        let v = k - head.len();
        assert(extend_all(asgs, n, vars)[k] == assign(asgs[asgs.len() - 1], n, vars[v]));
    }
}

/// Every assignment that expansion yields covers exactly the enumerated
/// components, each of them once.
pub proof fn law_expansion_keys(ecs: Seq<Choice>, k: int)
    requires
        0 <= k < expansion(ecs).len(),
    ensures
        unique_keys(expansion(ecs)[k]),
        keys_of(expansion(ecs)[k]) == names_of(ecs),
    decreases ecs.len(),
{
    if ecs.len() == 0 {
        assert(keys_of(expansion(ecs)[k]) =~= names_of(ecs));
    } else {
        let pre = ecs.drop_last();
        let (n, vars) = ecs.last();
        lemma_extend_all_members(expansion(pre), n, vars, k);
        let (b, v) = choose|b: int, v: int|
            0 <= b < expansion(pre).len() && 0 <= v < vars.len() && expansion(ecs)[k] == assign(
                #[trigger] expansion(pre)[b],
                n,
                #[trigger] vars[v],
            );
        law_expansion_keys(pre, b);
        law_assign_keys(expansion(pre)[b], n, vars[v]);
        assert forall|m: Seq<char>| names_of(ecs).contains(m) <==> names_of(pre).insert(n).contains(m) by {
            if names_of(ecs).contains(m) {
                let i = choose|i: int| 0 <= i < ecs.len() && (#[trigger] ecs[i]).0 == m;
                if i < pre.len() {
                    assert(pre[i] == ecs[i]);
                }
            }
            if names_of(pre).contains(m) {
                let i = choose|i: int| 0 <= i < pre.len() && (#[trigger] pre[i]).0 == m;
                assert(ecs[i] == pre[i]);
            }
            if m == n {
                assert(ecs[ecs.len() - 1].0 == m);
            }
        }
        assert(names_of(ecs) =~= names_of(pre).insert(n));
    }
}

} // verus!
