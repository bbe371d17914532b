use label_generator::component::{variant_name, SvgComponent, SvgComponentVariant};
use label_generator::expansion::expand;
use label_generator::ignore_condition::{IgnoreCondition, IgnoreGroup};
use label_generator::output_variant::OutputVariant;
use label_generator::pipeline::{
    component_names, generate, in_sku, parse_ignore_groups, resolve_fixed, retain_unignored, sku_report,
    unique_names,
};
use label_generator::text::{braced_token, marker_token, replace, split_chars};

fn variant(name: &str, data: &str) -> SvgComponentVariant {
    SvgComponentVariant { name: name.to_string(), data: data.to_string() }
}

fn color_and_size() -> Vec<(String, SvgComponent)> {
    vec![
        (
            "color".to_string(),
            SvgComponent::Exponential(vec![variant("red", "<r/>"), variant("blue", "<b/>")]),
        ),
        (
            "size".to_string(),
            SvgComponent::Exponential(vec![variant("s", "<s/>"), variant("m", "<m/>")]),
        ),
    ]
}

const ROOT: &str = "<svg>\n<!-- component:color -->\n<!-- component:size -->\n</svg>";

fn skus(outputs: &[(String, String)]) -> Vec<String> {
    outputs.iter().map(|o| o.0.clone()).collect()
}

#[test]
fn round_trip_color_and_size() {
    let out = generate(ROOT, "LABEL-{color}-{size}", &color_and_size(), &[]);
    assert_eq!(out.len(), 4);
    assert_eq!(skus(&out), vec!["LABEL-red-s", "LABEL-red-m", "LABEL-blue-s", "LABEL-blue-m"]);
    assert_eq!(out[0].1, "<svg>\n<r/>\n<s/>\n</svg>");
    assert_eq!(out[3].1, "<svg>\n<b/>\n<m/>\n</svg>");
}

#[test]
fn ignore_rule_removes_one_combination() {
    let groups = parse_ignore_groups(&["color:red,size:s".to_string()]);
    let out = generate(ROOT, "LABEL-{color}-{size}", &color_and_size(), &groups);
    assert_eq!(skus(&out), vec!["LABEL-red-m", "LABEL-blue-s", "LABEL-blue-m"]);
}

#[test]
fn fixed_component_is_folded_first() {
    let mut comps = color_and_size();
    comps.insert(0, ("logo".to_string(), SvgComponent::Single("<logo/>".to_string())));
    let root = "<svg><!-- component:logo --><!-- component:logo -->\n<!-- component:color -->\n</svg>";
    let doc = resolve_fixed(root, &comps);
    assert_eq!(doc, "<svg><logo/><logo/>\n<!-- component:color -->\n</svg>");
    let all = expand(&comps);
    assert_eq!(all.len(), 4);
    for o in &all {
        assert!(o.component_variants.iter().all(|e| e.0 != "logo"));
    }
    let out = generate(root, "L-{logo}-{color}", &comps, &[]);
    assert_eq!(out[0].0, "L-{logo}-red");
    assert_eq!(out[0].1, "<svg><logo/><logo/>\n<r/>\n</svg>");
}

#[test]
fn malformed_condition_is_dropped() {
    let g = IgnoreGroup::parse("color:red,bogus");
    assert_eq!(g.conditions.len(), 1);
    assert_eq!(g.conditions[0].component, "color");
    assert_eq!(g.conditions[0].variant, "red");
}

#[test]
fn condition_parse_takes_first_two_fields() {
    let c = IgnoreCondition::parse("a:b:c").unwrap();
    assert_eq!(c.component, "a");
    assert_eq!(c.variant, "b");
    assert!(IgnoreCondition::parse("nocolon").is_none());
    let e = IgnoreCondition::parse(":").unwrap();
    assert_eq!(e.component, "");
    assert_eq!(e.variant, "");
}

#[test]
fn empty_group_matches_everything() {
    let g = IgnoreGroup::parse("bogus");
    assert!(g.conditions.is_empty());
    assert!(g.matches(&[("color", "red")]));
    assert!(g.matches(&[]));
}

#[test]
fn group_needs_every_condition() {
    let g = IgnoreGroup::parse("color:red,size:s");
    assert!(g.matches(&[("color", "red"), ("size", "s")]));
    assert!(!g.matches(&[("color", "red"), ("size", "m")]));
    assert!(!g.matches(&[("color", "blue"), ("size", "s")]));
    let c = IgnoreCondition { component: "color".to_string(), variant: "red".to_string() };
    assert!(c.matches(&[("size", "s"), ("color", "red")]));
    assert!(!c.matches(&[("red", "color")]));
}

#[test]
fn should_ignore_is_or_of_groups() {
    let base = OutputVariant::new();
    let red = variant("red", "");
    let v = base.with_choice("color", &red).with_choice("size", &variant("s", ""));
    let none: Vec<IgnoreGroup> = vec![];
    assert!(!v.should_ignore(&none));
    let groups = parse_ignore_groups(&["color:blue".to_string(), "size:s".to_string()]);
    assert!(v.should_ignore(&groups));
    let groups = parse_ignore_groups(&["color:blue".to_string(), "size:m".to_string()]);
    assert!(!v.should_ignore(&groups));
}

#[test]
fn filter_keeps_unmatched_in_order() {
    let all = expand(&color_and_size());
    let groups = parse_ignore_groups(&["color:blue".to_string()]);
    let kept = retain_unignored(all, &groups);
    assert_eq!(kept.len(), 2);
    assert_eq!(kept[0].get_sku("{color}{size}"), "reds");
    assert_eq!(kept[1].get_sku("{color}{size}"), "redm");
}

#[test]
fn expansion_count_is_product() {
    let comps = vec![
        ("a".to_string(), SvgComponent::Exponential(vec![variant("1", ""), variant("2", "")])),
        (
            "b".to_string(),
            SvgComponent::Exponential(vec![variant("x", ""), variant("y", ""), variant("z", "")]),
        ),
    ];
    let all = expand(&comps);
    assert_eq!(all.len(), 6);
    for o in &all {
        let keys: Vec<&str> = o.component_variants.iter().map(|e| e.0.as_str()).collect();
        assert_eq!(keys, vec!["a", "b"]);
    }
}

#[test]
fn empty_component_collapses_product() {
    let mut comps = color_and_size();
    comps.push(("shape".to_string(), SvgComponent::Exponential(vec![])));
    assert_eq!(expand(&comps).len(), 0);
    assert!(generate(ROOT, "{color}", &comps, &[]).is_empty());
}

#[test]
fn no_components_gives_one_empty_assignment() {
    let all = expand(&[]);
    assert_eq!(all.len(), 1);
    assert!(all[0].component_variants.is_empty());
    let out = generate("<svg/>", "ONLY", &[], &[]);
    assert_eq!(out, vec![("ONLY".to_string(), "<svg/>".to_string())]);
}

#[test]
fn duplicate_variant_names_are_kept() {
    let comps = vec![(
        "color".to_string(),
        SvgComponent::Exponential(vec![variant("red", "<a/>"), variant("red", "<b/>")]),
    )];
    let out = generate("<!-- component:color -->", "{color}", &comps, &[]);
    assert_eq!(out.len(), 2);
    assert_eq!(out[0], ("red".to_string(), "<a/>".to_string()));
    assert_eq!(out[1], ("red".to_string(), "<b/>".to_string()));
}

#[test]
fn add_variants_replaces_existing_choice() {
    let v = OutputVariant::new().with_choice("color", &variant("red", "<r/>"));
    let vs = vec![variant("blue", "<b/>"), variant("green", "<g/>")];
    let out = v.add_variants("color", &vs);
    assert_eq!(out.len(), 2);
    assert_eq!(out[0].component_variants.len(), 1);
    assert_eq!(out[0].component_variants[0].1.name, "blue");
    assert_eq!(out[1].component_variants[0].1.name, "green");
}

#[test]
fn sku_without_placeholders_is_unchanged() {
    let v = OutputVariant::new().with_choice("color", &variant("red", ""));
    assert_eq!(v.get_sku("PLAIN-SKU"), "PLAIN-SKU");
    assert_eq!(v.get_sku("{size}-{colour}"), "{size}-{colour}");
}

#[test]
fn sku_replaces_every_occurrence() {
    let v = OutputVariant::new().with_choice("color", &variant("red", ""));
    assert_eq!(v.get_sku("{color}/{color}-{color}"), "red/red-red");
    let w = v.with_choice("col", &variant("x", ""));
    assert_eq!(w.get_sku("{col}{color}"), "xred");
}

#[test]
fn markup_replaces_every_marker_and_leaves_others() {
    let v = OutputVariant::new().with_choice("color", &variant("red", "<r/>"));
    let svg = "<!-- component:color --><!-- component:size --><!-- component:color -->";
    assert_eq!(v.clone().apply_to_svg(svg), "<r/><!-- component:size --><r/>");
    assert_eq!(v.apply_to_svg("<svg/>"), "<svg/>");
}

#[test]
fn variant_names_from_file_names() {
    assert_eq!(variant_name("red-large.svg"), "red");
    assert_eq!(variant_name("blue.svg"), "blue");
    assert_eq!(variant_name("a.b-c.svg"), "a");
    assert_eq!(variant_name("plain"), "plain");
    assert_eq!(variant_name(""), "");
}

#[test]
fn component_from_files_keeps_order_and_duplicates() {
    let files = vec![
        ("red-1.svg".to_string(), "<a/>".to_string()),
        ("red-2.svg".to_string(), "<b/>".to_string()),
        ("blue.svg".to_string(), "<c/>".to_string()),
    ];
    match SvgComponent::from_files(&files) {
        SvgComponent::Exponential(vs) => {
            let names: Vec<&str> = vs.iter().map(|v| v.name.as_str()).collect();
            assert_eq!(names, vec!["red", "red", "blue"]);
            assert_eq!(vs[2].data, "<c/>");
        }
        SvgComponent::Single(_) => panic!("expected variants"),
    }
}

#[test]
fn component_names_are_found_once_each() {
    let root = "<svg>\n<!-- component:logo -->\n<!-- component:color -->\n<!-- component:logo -->\n</svg>";
    assert_eq!(component_names(root), vec!["logo", "color"]);
    assert!(component_names("<svg/>").is_empty());
}

#[test]
fn unique_names_keeps_first_occurrence() {
    let found = vec!["b".to_string(), "a".to_string(), "b".to_string(), "c".to_string(), "a".to_string()];
    assert_eq!(unique_names(&found), vec!["b", "a", "c"]);
}

#[test]
fn replace_is_literal_and_non_overlapping() {
    assert_eq!(replace("aaaa", "aa", "b"), "bb");
    assert_eq!(replace("aaa", "aa", "b"), "ba");
    assert_eq!(replace("x.y.z", ".", "::"), "x::y::z");
    assert_eq!(replace("héllo", "é", "e"), "hello");
    assert_eq!(replace("", "a", "b"), "");
}

#[test]
fn tokens_and_split() {
    assert_eq!(braced_token("color"), "{color}");
    assert_eq!(marker_token("color"), "<!-- component:color -->");
    let parts = split_chars(&"a,,b".chars().collect(), ',');
    let parts: Vec<String> = parts.iter().map(|p| p.iter().collect()).collect();
    assert_eq!(parts, vec!["a", "", "b"]);
}

#[test]
fn in_sku_finds_exact_placeholder() {
    assert!(in_sku("LABEL-{color}-{size}", "color"));
    assert!(!in_sku("LABEL-{colour}", "color"));
    assert!(!in_sku("LABEL-color", "color"));
    assert!(in_sku("{}", ""));
}

#[test]
fn from_str_follows_parse() {
    let g: IgnoreGroup = "size:m,x".parse().unwrap();
    assert_eq!(g.conditions.len(), 1);
    assert_eq!(g.conditions[0].variant, "m");
    assert!("bogus".parse::<IgnoreCondition>().is_err());
}

#[test]
fn sku_report_flags_ignored_assignments() {
    let all = expand(&color_and_size());
    let groups = parse_ignore_groups(&["color:red,size:s".to_string()]);
    let report = sku_report("{color}-{size}", &all, &groups);
    assert_eq!(
        report,
        vec![
            ("red-s".to_string(), true),
            ("red-m".to_string(), false),
            ("blue-s".to_string(), false),
            ("blue-m".to_string(), false),
        ]
    );
}

#[test]
fn with_choice_adds_new_key_once() {
    let v = OutputVariant::new().with_choice("a", &variant("1", "")).with_choice("b", &variant("2", ""));
    assert_eq!(v.component_variants.len(), 2);
    let w = v.with_choice("a", &variant("3", ""));
    assert_eq!(w.component_variants.len(), 2);
    assert_eq!(w.component_variants[0].0, "a");
    assert_eq!(w.component_variants[0].1.name, "3");
}

#[test]
fn condition_from_str_cases() {
    let c: IgnoreCondition = "color:red".parse().unwrap();
    assert_eq!((c.component.as_str(), c.variant.as_str()), ("color", "red"));
    let c: IgnoreCondition = " size:s".parse().unwrap();
    assert_eq!((c.component.as_str(), c.variant.as_str()), (" size", "s"));
    assert!("".parse::<IgnoreCondition>().is_err());
    let g: IgnoreGroup = "a,b".parse().unwrap();
    assert!(g.conditions.is_empty());
    let g: IgnoreGroup = "".parse().unwrap();
    assert!(g.conditions.is_empty());
}
