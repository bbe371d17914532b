//! Components: the named substitution points of a label.

use vstd::prelude::*;
use crate::text::{chars_of, split_chars, split_on, string_of};

verus! {

/// One alternative of an enumerated component: the name that goes into the
/// SKU and the markup fragment that goes into the label.
#[derive(Debug, Clone)]
pub struct SvgComponentVariant {
    pub name: String,
    pub data: String,
}

impl View for SvgComponentVariant {
    type V = (Seq<char>, Seq<char>);

    open spec fn view(&self) -> (Seq<char>, Seq<char>) {
        (self.name@, self.data@)
    }
}

impl SvgComponentVariant {
    /// A copy of this variant.
    pub fn duplicate(&self) -> (r: SvgComponentVariant)
        ensures
            r@ == self@,
    {
        SvgComponentVariant { name: self.name.clone(), data: self.data.clone() }
    }
}

/// A component is either one fixed fragment or an ordered list of variants.
#[derive(Debug, Clone)]
pub enum SvgComponent {
    Single(String),
    Exponential(Vec<SvgComponentVariant>),
}

/// The views of a list of variants.
pub open spec fn variant_views(vs: Seq<SvgComponentVariant>) -> Seq<(Seq<char>, Seq<char>)> {
    vs.map_values(|v: SvgComponentVariant| v@)
}

/// The variant name of a source file: its name up to the first `.`, and of
/// that the part before the first `-`.
pub open spec fn variant_name_of(file_name: Seq<char>) -> Seq<char> {
    split_on(split_on(file_name, '.')[0], '-')[0]
}

/// Derives the variant name from a file name (`red-large.svg` gives `red`).
pub fn variant_name(file_name: &str) -> (r: String)
    ensures
        r@ == variant_name_of(file_name@),
{
    let stem_pieces = split_chars(&chars_of(file_name), '.');
    proof {
        crate::text::lemma_split_nonempty(file_name@, '.');
    }
    let name_pieces = split_chars(&stem_pieces[0], '-');
    proof {
        crate::text::lemma_split_nonempty(stem_pieces@[0]@, '-');
    }
    string_of(&name_pieces[0])
}

/// The views of the variants made from (file name, contents) pairs.
pub open spec fn variants_from_files(files: Seq<(String, String)>) -> Seq<(Seq<char>, Seq<char>)> {
    files.map_values(|f: (String, String)| (variant_name_of(f.0@), f.1@))
}

impl SvgComponent {
    /// An enumerated component with one variant per (file name, contents)
    /// pair, in the given order; equal derived names are all kept.
    pub fn from_files(files: &[(String, String)]) -> (r: SvgComponent)
        ensures
            r matches SvgComponent::Exponential(vs) && variant_views(vs@) == variants_from_files(files@),
    {
        let ghost target = variants_from_files(files@);
        let mut vs: Vec<SvgComponentVariant> = Vec::new();
        let mut i: usize = 0;
        while i < files.len()
            invariant
                i <= files@.len(),
                target == variants_from_files(files@),
                variant_views(vs@) == target.take(i as int),
            decreases files@.len() - i,
        {
            let v = SvgComponentVariant { name: variant_name(files[i].0.as_str()), data: files[i].1.clone() };
            proof {
                lemma_variant_views_push(vs@, v);
            }
            vs.push(v);
            assert(variant_views(vs@) =~= target.take(i + 1));
            i = i + 1;
        }
        assert(target.take(i as int) =~= target);
        SvgComponent::Exponential(vs)
    }
}

proof fn lemma_variant_views_push(vs: Seq<SvgComponentVariant>, v: SvgComponentVariant)
    ensures
        variant_views(vs.push(v)) == variant_views(vs).push(v@),
{
    assert(variant_views(vs.push(v)) =~= variant_views(vs).push(v@));
}

} // verus!
