//! The style engine: selector matching, the specificity-ordered cascade,
//! and construction of the styled tree that mirrors the document tree.

use vstd::prelude::*;
use crate::css::{
    specificity_spec, spec_le, DeclarationView, RuleView, Selector, SelectorView, SimpleSelector,
    Specificity, Stylesheet, Value, ValueView,
};
use crate::dom::{
    classes_of, id_of, ElementData, ElementView, Node, NodeType, NodeTypeView, NodeView, StrMap,
    node_view, nodes_view, lemma_nodes_view,
};
use crate::strutil::str_eq;

verus! {

/// Map from CSS property names to values.
pub type PropertyMap = StrMap<Value>;

/// A document node with the property values the cascade assigned to it.
pub struct StyledNode<'a> {
    pub node: &'a Node,
    pub specified_values: PropertyMap,
    pub children: Vec<StyledNode<'a>>,
}

/// Mathematical model of a `StyledNode`.
pub ghost struct StyledView {
    pub node: NodeView,
    pub specified_values: Map<Seq<char>, ValueView>,
    pub children: Seq<StyledView>,
}

/// The model of a styled node, recursively.
pub open spec fn styled_view<'a>(s: StyledNode<'a>) -> StyledView
    decreases s,
{
    StyledView {
        node: node_view(*s.node),
        specified_values: s.specified_values@,
        children: styled_views(s.children@),
    }
}

/// The models of a sequence of styled nodes, in order.
pub open spec fn styled_views<'a>(s: Seq<StyledNode<'a>>) -> Seq<StyledView>
    decreases s,
{
    if s.len() == 0 {
        Seq::empty()
    } else {
        styled_views(s.drop_last()).push(styled_view(s.last()))
    }
}

/// `styled_views` maps `styled_view` over the sequence.
pub proof fn lemma_styled_views<'a>(s: Seq<StyledNode<'a>>)
    ensures
        styled_views(s).len() == s.len(),
        forall|i: int| 0 <= i < s.len() ==> styled_views(s)[i] == styled_view(s[i]),
    decreases s,
{
    if s.len() > 0 {
        lemma_styled_views(s.drop_last());
        assert(forall|i: int| 0 <= i < s.len() - 1 ==> s.drop_last()[i] == s[i]);
    }
}

impl<'a> View for StyledNode<'a> {
    type V = StyledView;

    open spec fn view(&self) -> StyledView {
        styled_view(*self)
    }
}

/// How a box is laid out: as a block, inline, or not at all.
#[derive(Clone, Copy, PartialEq, Eq, Structural, Debug)]
pub enum Display {
    Inline,
    Block,
    DisplayNone,
}

/// The value bound to `name`, if any.
pub open spec fn value_of(m: Map<Seq<char>, ValueView>, name: Seq<char>) -> Option<ValueView> {
    if m.contains_key(name) {
        Option::Some(m[name])
    } else {
        Option::None
    }
}

/// The value of `name`, else of `fallback`, else `default`.
pub open spec fn lookup_of(
    m: Map<Seq<char>, ValueView>,
    name: Seq<char>,
    fallback: Seq<char>,
    default: ValueView,
) -> ValueView {
    if m.contains_key(name) {
        m[name]
    } else if m.contains_key(fallback) {
        m[fallback]
    } else {
        default
    }
}

/// The display mode a property map calls for: `block` and `none` keywords
/// select those modes, anything else (or nothing) is inline.
pub open spec fn display_of(m: Map<Seq<char>, ValueView>) -> Display {
    match value_of(m, "display"@) {
        Option::Some(ValueView::Keyword(s)) => if s == "block"@ {
            Display::Block
        } else if s == "none"@ {
            Display::DisplayNone
        } else {
            Display::Inline
        },
        _ => Display::Inline,
    }
}

impl<'a> StyledNode<'a> {
    /// The specified value of a property if it exists, otherwise `None`.
    pub fn value(&self, name: &str) -> (r: Option<Value>)
        ensures
            match r {
                Option::Some(v) => value_of(self@.specified_values, name@)
                    == Option::Some(v@),
                Option::None => value_of(self@.specified_values, name@) is None,
            },
    {
        match self.specified_values.get(name) {
            Option::Some(v) => Option::Some(v.clone()),
            Option::None => Option::None,
        }
    }

    /// The value of property `name`, or of `fallback_name` if `name` is not
    /// set, or a copy of `default` if neither is.
    pub fn lookup(&self, name: &str, fallback_name: &str, default: &Value) -> (r: Value)
        ensures
            r@ == lookup_of(self@.specified_values, name@, fallback_name@, default@),
    {
        match self.specified_values.get(name) {
            Option::Some(v) => v.clone(),
            Option::None => match self.specified_values.get(fallback_name) {
                Option::Some(v) => v.clone(),
                Option::None => default.clone(),
            },
        }
    }

    /// The value of the `display` property (defaults to inline).
    pub fn display(&self) -> (r: Display)
        ensures
            r == display_of(self@.specified_values),
    {
        match self.value("display") {
            Option::Some(Value::Keyword(s)) => {
                if str_eq(s.as_str(), "block") {
                    Display::Block
                } else if str_eq(s.as_str(), "none") {
                    Display::DisplayNone
                } else {
                    Display::Inline
                }
            },
            _ => Display::Inline,
        }
    }
}

// ---------------------------------------------------------------------------
// Selector matching.
// ---------------------------------------------------------------------------

/// Whether a simple selector selects an element: its tag name (if any)
/// equals the element's, its id (if any) equals the element's `id`
/// attribute, and every one of its class names is among the element's
/// classes.
pub open spec fn sel_matches(e: ElementView, s: SelectorView) -> bool {
    &&& (s.tag_name matches Option::Some(t) ==> e.tag_name == t)
    &&& (s.id matches Option::Some(i) ==> id_of(e) == Option::Some(i))
    &&& (forall|k: int|
        0 <= k < s.class.len() ==> classes_of(e).contains(#[trigger] s.class[k]))
}

/// The specificity of the first selector of the rule that matches the
/// element, if any does.
pub open spec fn rule_match_spec(e: ElementView, sels: Seq<SelectorView>) -> Option<Specificity>
    decreases sels.len(),
{
    if sels.len() == 0 {
        Option::None
    } else if sel_matches(e, sels[0]) {
        Option::Some(specificity_spec(sels[0]))
    } else {
        rule_match_spec(e, sels.drop_first())
    }
}

/// The matched rules among the first `n` rules, in source order: the index
/// of each rule whose selector list has a matching selector, with the
/// specificity of the first such selector.
pub open spec fn matching_rules_spec(e: ElementView, rules: Seq<RuleView>, n: int) -> Seq<
    (Specificity, int),
>
    decreases n when 0 <= n <= rules.len()
{
    if n <= 0 {
        Seq::empty()
    } else {
        let acc = matching_rules_spec(e, rules, n - 1);
        match rule_match_spec(e, rules[n - 1].selectors) {
            Option::Some(sp) => acc.push((sp, n - 1)),
            Option::None => acc,
        }
    }
}

// ---------------------------------------------------------------------------
// The cascade.
// ---------------------------------------------------------------------------

/// Insert `x` into the sorted sequence `t`, after every element whose
/// specificity is at most `x`'s: the insertion step of a stable insertion
/// sort.
pub open spec fn insert_sorted(t: Seq<(Specificity, int)>, x: (Specificity, int)) -> Seq<
    (Specificity, int),
>
    decreases t.len(),
{
    if t.len() == 0 {
        seq![x]
    } else if spec_le(t.last().0, x.0) {
        t.push(x)
    } else {
        insert_sorted(t.drop_last(), x).push(t.last())
    }
}

/// Stable insertion sort by specificity, ascending: rules of equal
/// specificity keep their source order.
pub open spec fn sort_rules(s: Seq<(Specificity, int)>) -> Seq<(Specificity, int)>
    decreases s.len(),
{
    if s.len() == 0 {
        Seq::empty()
    } else {
        insert_sorted(sort_rules(s.drop_last()), s.last())
    }
}

/// Assign the first `n` declarations into the map, in order, overwriting.
pub open spec fn apply_decls(
    m: Map<Seq<char>, ValueView>,
    ds: Seq<DeclarationView>,
    n: int,
) -> Map<Seq<char>, ValueView>
    decreases n when 0 <= n <= ds.len()
{
    if n <= 0 {
        m
    } else {
        apply_decls(m, ds, n - 1).insert(ds[n - 1].name, ds[n - 1].value)
    }
}

/// Apply the declarations of the first `n` matched rules, in order.
pub open spec fn apply_matched(
    m: Map<Seq<char>, ValueView>,
    rules: Seq<RuleView>,
    ms: Seq<(Specificity, int)>,
    n: int,
) -> Map<Seq<char>, ValueView>
    decreases n when 0 <= n <= ms.len()
{
    if n <= 0 {
        m
    } else {
        let m1 = apply_matched(m, rules, ms, n - 1);
        let ds = rules[ms[n - 1].1].declarations;
        apply_decls(m1, ds, ds.len() as int)
    }
}

/// The specified values of an element under a stylesheet: every matched
/// rule's declarations assigned in ascending order of specificity, rules of
/// equal specificity in source order, so that the last assignment — highest
/// specificity, then latest in source — wins each property.
pub open spec fn specified_values_spec(e: ElementView, rules: Seq<RuleView>) -> Map<
    Seq<char>,
    ValueView,
> {
    let ms = sort_rules(matching_rules_spec(e, rules, rules.len() as int));
    apply_matched(Map::empty(), rules, ms, ms.len() as int)
}

/// The styled tree of a document tree under a stylesheet: the same shape,
/// each element annotated with its specified values, each text node with an
/// empty map.
pub open spec fn style_tree_spec(n: NodeView, rules: Seq<RuleView>) -> StyledView
    decreases n, 1int,
{
    StyledView {
        node: n,
        specified_values: match n.node_type {
            NodeTypeView::Text(_) => Map::empty(),
            NodeTypeView::Element(e) => specified_values_spec(e, rules),
        },
        children: style_children_spec(n.children, rules, n.children.len() as int),
    }
}

/// The styled subtrees of the first `n` children, in order.
pub open spec fn style_children_spec(cs: Seq<NodeView>, rules: Seq<RuleView>, n: int) -> Seq<
    StyledView,
>
    decreases cs, n when 0 <= n <= cs.len()
{
    if n <= 0 {
        Seq::empty()
    } else {
        style_children_spec(cs, rules, n - 1).push(style_tree_spec(cs[n - 1], rules))
    }
}

// ---------------------------------------------------------------------------
// The executable style engine.
// ---------------------------------------------------------------------------

/// Whether `selector` selects `elem`.
fn matches(elem: &ElementData, selector: &Selector) -> (r: bool)
    ensures
        r == sel_matches(elem@, selector@),
{
    let Selector::Simple(s) = selector;
    matches_simple_selector(elem, s)
}

/// Whether the simple selector selects the element: tag and id must agree
/// where the selector has them, and every selector class must be among the
/// element's classes.
#[verifier::loop_isolation(false)]
fn matches_simple_selector(elem: &ElementData, selector: &SimpleSelector) -> (r: bool)
    ensures
        r == sel_matches(elem@, selector@),
{
    if let Option::Some(t) = &selector.tag_name {
        if !str_eq(t.as_str(), elem.tag_name.as_str()) {
            return false;
        }
    }

    if let Option::Some(id) = &selector.id {
        match elem.id() {
            Option::Some(v) => {
                if !str_eq(id.as_str(), v.as_str()) {
                    return false;
                }
            },
            Option::None => {
                return false;
            },
        }
    }

    let element_classes = elem.classes();
    let ghost eclasses = classes_of(elem@);
    let nc = selector.class.len();
    let mut k: usize = 0;
    while k < nc
        invariant
            nc == selector.class.len(),
            k <= nc,
            element_classes@.map_values(|c: String| c@) == eclasses,
            forall|j: int| 0 <= j < k ==> eclasses.contains(#[trigger] selector@.class[j]),
        decreases nc - k,
    {
        let wanted = &selector.class[k];
        let ne = element_classes.len();
        let mut j: usize = 0;
        let mut found = false;
        while j < ne && !found
            invariant
                ne == element_classes.len(),
                j <= ne,
                element_classes@.map_values(|c: String| c@) == eclasses,
                found ==> eclasses.contains(wanted@),
                !found ==> forall|t: int| 0 <= t < j ==> eclasses[t] != wanted@,
            decreases ne - j + (if found { 0int } else { 1int }),
        {
            if str_eq(element_classes[j].as_str(), wanted.as_str()) {
                proof {
                    assert(eclasses[j as int] == wanted@);
                }
                found = true;
            } else {
                j = j + 1;
            }
        }
        if !found {
            proof {
                assert(selector@.class[k as int] == wanted@);
                assert(!eclasses.contains(wanted@));
            }
            return false;
        }
        proof {
            assert(selector@.class[k as int] == wanted@);
        }
        k = k + 1;
    }
    true
}

/// If any selector of `rule` (the rule at index `idx`) matches `elem`,
/// the specificity of the first one that does, with the index.
#[verifier::loop_isolation(false)]
fn match_rule(elem: &ElementData, rule: &crate::css::Rule, idx: usize) -> (r: Option<
    (Specificity, usize),
>)
    ensures
        match r {
            Option::Some(p) => rule_match_spec(elem@, rule@.selectors) == Option::Some(p.0) && p.1
                == idx,
            Option::None => rule_match_spec(elem@, rule@.selectors) is None,
        },
{
    let n = rule.selectors.len();
    proof {
        assert(rule@.selectors.skip(0) =~= rule@.selectors);
    }
    let mut i: usize = 0;
    while i < n
        invariant
            n == rule.selectors.len(),
            i <= n,
            rule_match_spec(elem@, rule@.selectors) == rule_match_spec(
                elem@,
                rule@.selectors.skip(i as int),
            ),
            forall|j: int| 0 <= j < i ==> !sel_matches(elem@, #[trigger] rule@.selectors[j]),
        decreases n - i,
    {
        proof {
            assert(rule@.selectors.skip(i as int)[0] == rule@.selectors[i as int]);
        }
        if matches(elem, &rule.selectors[i]) {
            let sp = rule.selectors[i].specificity();
            return Option::Some((sp, idx));
        }
        proof {
            assert(rule@.selectors.skip(i as int).drop_first() =~= rule@.selectors.skip(
                i as int + 1,
            ));
        }
        i = i + 1;
    }
    proof {
        assert(rule@.selectors.skip(n as int).len() == 0);
    }
    Option::None
}

/// All rules of the stylesheet that match the element, in source order,
/// each with the specificity of its first matching selector and its index.
#[verifier::loop_isolation(false)]
fn matching_rules(elem: &ElementData, stylesheet: &Stylesheet) -> (r: Vec<(Specificity, usize)>)
    ensures
        r@.map_values(|p: (Specificity, usize)| (p.0, p.1 as int)) == matching_rules_spec(
            elem@,
            stylesheet@,
            stylesheet@.len() as int,
        ),
        forall|i: int| 0 <= i < r@.len() ==> (#[trigger] r@[i]).1 < stylesheet@.len(),
{
    let n = stylesheet.rules.len();
    let mut r: Vec<(Specificity, usize)> = Vec::new();
    let ghost f = |p: (Specificity, usize)| (p.0, p.1 as int);
    let mut i: usize = 0;
    while i < n
        invariant
            n == stylesheet.rules.len(),
            i <= n,
            r@.map_values(f) == matching_rules_spec(elem@, stylesheet@, i as int),
            forall|j: int| 0 <= j < r@.len() ==> (#[trigger] r@[j]).1 < i,
        decreases n - i,
    {
        proof {
            assert(stylesheet@[i as int] == stylesheet.rules@[i as int]@);
        }
        match match_rule(elem, &stylesheet.rules[i], i) {
            Option::Some(p) => {
                proof {
                    assert(r@.push(p).map_values(f) =~= r@.map_values(f).push((p.0, p.1 as int)));
                }
                r.push(p);
            },
            Option::None => {},
        }
        i = i + 1;
    }
    r
}

/// Whether `a` is at most `b` in the lexicographic order of specificities.
fn spec_le_exec(a: Specificity, b: Specificity) -> (r: bool)
    ensures
        r == spec_le(a, b),
{
    a.0 < b.0 || (a.0 == b.0 && (a.1 < b.1 || (a.1 == b.1 && a.2 <= b.2)))
}

proof fn lemma_insert_sorted_at(t: Seq<(Specificity, int)>, x: (Specificity, int), p: int)
    requires
        0 <= p <= t.len(),
        p > 0 ==> spec_le(t[p - 1].0, x.0),
        forall|k: int| p <= k < t.len() ==> !spec_le((#[trigger] t[k]).0, x.0),
    ensures
        insert_sorted(t, x) == t.subrange(0, p).push(x) + t.subrange(p, t.len() as int),
    decreases t.len(),
{
    if t.len() == 0 {
        assert(insert_sorted(t, x) =~= t.subrange(0, p).push(x) + t.subrange(
            p,
            t.len() as int,
        ));
    } else if p == t.len() {
        assert(t.subrange(0, p) =~= t);
        assert(insert_sorted(t, x) =~= t.subrange(0, p).push(x) + t.subrange(
            p,
            t.len() as int,
        ));
    } else {
        assert(!spec_le(t.last().0, x.0));
        lemma_insert_sorted_at(t.drop_last(), x, p);
        assert(t.drop_last().subrange(0, p) =~= t.subrange(0, p));
        assert(t.drop_last().subrange(p, t.len() - 1) =~= t.subrange(p, t.len() - 1));
        assert(insert_sorted(t, x) =~= t.subrange(0, p).push(x) + t.subrange(
            p,
            t.len() as int,
        ));
    }
}

/// Sort matched rules by specificity, ascending and stable: among equal
/// specificities the source order is preserved.
#[verifier::loop_isolation(false)]
fn sort_matched(input: Vec<(Specificity, usize)>) -> (r: Vec<(Specificity, usize)>)
    ensures
        r@.map_values(|p: (Specificity, usize)| (p.0, p.1 as int)) == sort_rules(
            input@.map_values(|p: (Specificity, usize)| (p.0, p.1 as int)),
        ),
        forall|i: int|
            0 <= i < r@.len() ==> exists|j: int|
                0 <= j < input@.len() && #[trigger] r@[i] == input@[j],
{
    let ghost f = |p: (Specificity, usize)| (p.0, p.1 as int);
    let n = input.len();
    let mut r: Vec<(Specificity, usize)> = Vec::new();
    let mut i: usize = 0;
    while i < n
        invariant
            n == input.len(),
            i <= n,
            r@.map_values(f) == sort_rules(input@.subrange(0, i as int).map_values(f)),
            r@.len() == i,
            forall|k: int|
                0 <= k < r@.len() ==> exists|j: int|
                    0 <= j < input@.len() && #[trigger] r@[k] == input@[j],
        decreases n - i,
    {
        let x = input[i];
        let mut p: usize = r.len();
        while p > 0 && !spec_le_exec(r[p - 1].0, x.0)
            invariant
                p <= r.len(),
                forall|k: int| p <= k < r@.len() ==> !spec_le((#[trigger] r@[k]).0, x.0),
            decreases p,
        {
            p = p - 1;
        }
        proof {
            let tv = r@.map_values(f);
            lemma_insert_sorted_at(tv, f(x), p as int);
            let prefix = input@.subrange(0, i as int).map_values(f);
            let prefix2 = input@.subrange(0, i as int + 1).map_values(f);
            assert(prefix2.drop_last() =~= prefix);
            assert(prefix2.last() == f(x));
            assert(sort_rules(prefix2) == insert_sorted(sort_rules(prefix), f(x)));
            assert(r@.insert(p as int, x).map_values(f) =~= tv.subrange(0, p as int).push(
                f(x),
            ) + tv.subrange(p as int, tv.len() as int));
        }
        r.insert(p, x);
        i = i + 1;
    }
    proof {
        assert(input@.subrange(0, n as int) =~= input@);
    }
    r
}

/// Apply styles to a single element, returning the specified values.
#[verifier::loop_isolation(false)]
fn specified_values(elem: &ElementData, stylesheet: &Stylesheet) -> (r: PropertyMap)
    ensures
        r@ == specified_values_spec(elem@, stylesheet@),
{
    let mut values: PropertyMap = StrMap::new();
    let matched = matching_rules(elem, stylesheet);
    let ghost f = |p: (Specificity, usize)| (p.0, p.1 as int);
    let ghost msv = sort_rules(matching_rules_spec(elem@, stylesheet@, stylesheet@.len() as int));

    // Go through the rules from lowest to highest specificity.
    let sorted = sort_matched(matched);
    let n = sorted.len();
    let mut i: usize = 0;
    while i < n
        invariant
            n == sorted.len(),
            i <= n,
            sorted@.map_values(f) == msv,
            msv.len() == n,
            forall|j: int| 0 <= j < n ==> (#[trigger] sorted@[j]).1 < stylesheet.rules@.len(),
            values@ == apply_matched(Map::empty(), stylesheet@, msv, i as int),
        decreases n - i,
    {
        proof {
            assert(msv[i as int] == f(sorted@[i as int]));
        }
        let idx = sorted[i].1;
        let rule = &stylesheet.rules[idx];
        let ghost ds = stylesheet@[idx as int].declarations;
        let nd = rule.declarations.len();
        let mut j: usize = 0;
        while j < nd
            invariant
                nd == rule.declarations.len(),
                j <= nd,
                rule == &stylesheet.rules[idx as int],
                idx < stylesheet.rules@.len(),
                ds == stylesheet@[idx as int].declarations,
                ds.len() == nd,
                values@ == apply_decls(
                    apply_matched(Map::empty(), stylesheet@, msv, i as int),
                    ds,
                    j as int,
                ),
            decreases nd - j,
        {
            let declaration = &rule.declarations[j];
            proof {
                assert(stylesheet@[idx as int] == stylesheet.rules@[idx as int]@);
                assert(ds[j as int] == rule.declarations@[j as int]@);
            }
            values.insert(declaration.name.clone(), declaration.value.clone());
            j = j + 1;
        }
        proof {
            assert(msv[i as int].1 == idx as int);
        }
        i = i + 1;
    }
    values
}

// ---------------------------------------------------------------------------
// Laws of the style engine.
// ---------------------------------------------------------------------------

/// Every styled node of the tree that mirrors a text node carries an empty
/// property map.
pub open spec fn text_nodes_unstyled(sv: StyledView) -> bool
    decreases sv,
{
    &&& (sv.node.node_type is Text ==> sv.specified_values == Map::<Seq<char>, ValueView>::empty())
    &&& (forall|i: int|
        0 <= i < sv.children.len() ==> text_nodes_unstyled(#[trigger] sv.children[i]))
}

/// Law: styling gives no text node any properties, under any stylesheet.
pub proof fn lemma_text_nodes_unstyled(n: NodeView, rules: Seq<RuleView>)
    ensures
        text_nodes_unstyled(style_tree_spec(n, rules)),
    decreases n, 1int,
{
    lemma_text_children_unstyled(n.children, rules, n.children.len() as int);
    let sv = style_tree_spec(n, rules);
    assert forall|i: int| 0 <= i < sv.children.len() implies text_nodes_unstyled(
        #[trigger] sv.children[i],
    ) by {
        assert(text_nodes_unstyled(
            style_children_spec(n.children, rules, n.children.len() as int)[i],
        ));
    }
}

proof fn lemma_text_children_unstyled(cs: Seq<NodeView>, rules: Seq<RuleView>, k: int)
    requires
        0 <= k <= cs.len(),
    ensures
        style_children_spec(cs, rules, k).len() == k,
        forall|i: int|
            0 <= i < k ==> text_nodes_unstyled(#[trigger] style_children_spec(cs, rules, k)[i]),
    decreases cs, k,
{
    if k > 0 {
        lemma_text_children_unstyled(cs, rules, k - 1);
        lemma_text_nodes_unstyled(cs[k - 1], rules);
        let prev = style_children_spec(cs, rules, k - 1);
        assert(forall|i: int|
            0 <= i < k - 1 ==> prev.push(style_tree_spec(cs[k - 1], rules))[i] == prev[i]);
    }
}

/// The styled tree mirrors the document tree node for node, and every
/// property map is empty.
pub open spec fn mirrors_unstyled(sv: StyledView, n: NodeView) -> bool
    decreases n,
{
    &&& sv.node == n
    &&& sv.specified_values == Map::<Seq<char>, ValueView>::empty()
    &&& sv.children.len() == n.children.len()
    &&& (forall|i: int|
        0 <= i < n.children.len() ==> mirrors_unstyled(
            sv.children[i],
            #[trigger] n.children[i],
        ))
}

/// Law: styling with an empty stylesheet yields a styled tree isomorphic
/// to the document tree with all property maps empty.
pub proof fn lemma_empty_stylesheet_mirrors(n: NodeView)
    ensures
        mirrors_unstyled(style_tree_spec(n, Seq::empty()), n),
    decreases n, 1int,
{
    let rules = Seq::<RuleView>::empty();
    match n.node_type {
        NodeTypeView::Text(_) => {},
        NodeTypeView::Element(e) => {
            assert(matching_rules_spec(e, rules, 0) =~= Seq::<(Specificity, int)>::empty());
            assert(specified_values_spec(e, rules) =~= Map::<Seq<char>, ValueView>::empty());
        },
    }
    lemma_empty_children_mirror(n.children, n.children.len() as int);
    let sv = style_tree_spec(n, rules);
    assert forall|i: int| 0 <= i < n.children.len() implies mirrors_unstyled(
        sv.children[i],
        #[trigger] n.children[i],
    ) by {
        assert(mirrors_unstyled(
            style_children_spec(n.children, rules, n.children.len() as int)[i],
            n.children[i],
        ));
    }
}

proof fn lemma_empty_children_mirror(cs: Seq<NodeView>, k: int)
    requires
        0 <= k <= cs.len(),
    ensures
        style_children_spec(cs, Seq::empty(), k).len() == k,
        forall|i: int|
            0 <= i < k ==> mirrors_unstyled(
                style_children_spec(cs, Seq::empty(), k)[i],
                #[trigger] cs[i],
            ),
    decreases cs, k,
{
    if k > 0 {
        lemma_empty_children_mirror(cs, k - 1);
        lemma_empty_stylesheet_mirrors(cs[k - 1]);
        let prev = style_children_spec(cs, Seq::empty(), k - 1);
        assert(forall|i: int|
            0 <= i < k - 1 ==> prev.push(style_tree_spec(cs[k - 1], Seq::empty()))[i]
                == prev[i]);
    }
}

/// The value of the last of the first `n` declarations that sets `k`.
pub open spec fn last_decl(ds: Seq<DeclarationView>, n: int, k: Seq<char>) -> Option<ValueView>
    decreases n when 0 <= n <= ds.len()
{
    if n <= 0 {
        Option::None
    } else if ds[n - 1].name == k {
        Option::Some(ds[n - 1].value)
    } else {
        last_decl(ds, n - 1, k)
    }
}

/// Whether a rule sets property `k` at all.
pub open spec fn declares(r: RuleView, k: Seq<char>) -> bool {
    last_decl(r.declarations, r.declarations.len() as int, k) is Some
}

proof fn lemma_apply_decls_at(
    m: Map<Seq<char>, ValueView>,
    ds: Seq<DeclarationView>,
    n: int,
    k: Seq<char>,
)
    requires
        0 <= n <= ds.len(),
    ensures
        match last_decl(ds, n, k) {
            Option::Some(v) => apply_decls(m, ds, n).contains_key(k) && apply_decls(m, ds, n)[k]
                == v,
            Option::None => apply_decls(m, ds, n).contains_key(k) == m.contains_key(k) && (
            m.contains_key(k) ==> apply_decls(m, ds, n)[k] == m[k]),
        },
    decreases n,
{
    if n > 0 {
        lemma_apply_decls_at(m, ds, n - 1, k);
    }
}

proof fn lemma_apply_matched_at(
    m: Map<Seq<char>, ValueView>,
    rules: Seq<RuleView>,
    ms: Seq<(Specificity, int)>,
    n: int,
    k: Seq<char>,
)
    requires
        0 <= n <= ms.len(),
        forall|j: int| 0 <= j < ms.len() ==> 0 <= (#[trigger] ms[j]).1 < rules.len(),
    ensures
        apply_matched(m, rules, ms, n).contains_key(k) == (m.contains_key(k) || exists|j: int|
            0 <= j < n && declares(rules[(#[trigger] ms[j]).1], k)),
    decreases n,
{
    if n > 0 {
        lemma_apply_matched_at(m, rules, ms, n - 1, k);
        let m1 = apply_matched(m, rules, ms, n - 1);
        let ds = rules[ms[n - 1].1].declarations;
        lemma_apply_decls_at(m1, ds, ds.len() as int, k);
        if apply_matched(m, rules, ms, n).contains_key(k) {
            if last_decl(ds, ds.len() as int, k) is Some {
                assert(declares(rules[ms[n - 1].1], k));
            }
        }
        if exists|j: int| 0 <= j < n && declares(rules[(#[trigger] ms[j]).1], k) {
            let j = choose|j: int| 0 <= j < n && declares(rules[(#[trigger] ms[j]).1], k);
            if j < n - 1 {
                assert(m1.contains_key(k));
            }
        }
    }
}

proof fn lemma_insert_sorted_contains(
    t: Seq<(Specificity, int)>,
    x: (Specificity, int),
    y: (Specificity, int),
)
    ensures
        insert_sorted(t, x).contains(y) == (y == x || t.contains(y)),
    decreases t.len(),
{
    if t.len() == 0 {
        assert(insert_sorted(t, x)[0] == x);
        assert(insert_sorted(t, x).contains(y) ==> y == x);
        if y == x {
            assert(insert_sorted(t, x).contains(y));
        }
    } else if spec_le(t.last().0, x.0) {
        assert(t.push(x).contains(y) == (y == x || t.contains(y))) by {
            if t.push(x).contains(y) {
                let i = choose|i: int| 0 <= i < t.push(x).len() && t.push(x)[i] == y;
                if i < t.len() {
                    assert(t[i] == y);
                }
            }
            if y == x {
                assert(t.push(x)[t.len() as int] == y);
            }
            if t.contains(y) {
                let i = choose|i: int| 0 <= i < t.len() && t[i] == y;
                assert(t.push(x)[i] == y);
            }
        }
    } else {
        lemma_insert_sorted_contains(t.drop_last(), x, y);
        let u = insert_sorted(t.drop_last(), x);
        assert(u.push(t.last()).contains(y) == (y == t.last() || u.contains(y))) by {
            if u.push(t.last()).contains(y) {
                let i = choose|i: int| 0 <= i < u.push(t.last()).len() && u.push(t.last())[i]
                    == y;
                if i < u.len() {
                    assert(u[i] == y);
                }
            }
            if y == t.last() {
                assert(u.push(t.last())[u.len() as int] == y);
            }
            if u.contains(y) {
                let i = choose|i: int| 0 <= i < u.len() && u[i] == y;
                assert(u.push(t.last())[i] == y);
            }
        }
        assert(t.contains(y) == (y == t.last() || t.drop_last().contains(y))) by {
            if t.contains(y) {
                let i = choose|i: int| 0 <= i < t.len() && t[i] == y;
                if i < t.len() - 1 {
                    assert(t.drop_last()[i] == y);
                }
            }
            if y == t.last() {
                assert(t[t.len() - 1] == y);
            }
            if t.drop_last().contains(y) {
                let i = choose|i: int| 0 <= i < t.len() - 1 && t.drop_last()[i] == y;
                assert(t[i] == y);
            }
        }
    }
}

proof fn lemma_sort_contains(s: Seq<(Specificity, int)>, y: (Specificity, int))
    ensures
        sort_rules(s).contains(y) == s.contains(y),
    decreases s.len(),
{
    if s.len() > 0 {
        lemma_sort_contains(s.drop_last(), y);
        lemma_insert_sorted_contains(sort_rules(s.drop_last()), s.last(), y);
        assert(s.contains(y) == (y == s.last() || s.drop_last().contains(y))) by {
            if s.contains(y) {
                let i = choose|i: int| 0 <= i < s.len() && s[i] == y;
                if i < s.len() - 1 {
                    assert(s.drop_last()[i] == y);
                }
            }
            if y == s.last() {
                assert(s[s.len() - 1] == y);
            }
            if s.drop_last().contains(y) {
                let i = choose|i: int| 0 <= i < s.len() - 1 && s.drop_last()[i] == y;
                assert(s[i] == y);
            }
        }
    }
}

proof fn lemma_matching_rules_bounds(e: ElementView, rules: Seq<RuleView>, n: int)
    requires
        0 <= n <= rules.len(),
    ensures
        forall|j: int|
            0 <= j < matching_rules_spec(e, rules, n).len() ==> 0 <= (
            #[trigger] matching_rules_spec(e, rules, n)[j]).1 < n,
    decreases n,
{
    if n > 0 {
        lemma_matching_rules_bounds(e, rules, n - 1);
        let acc = matching_rules_spec(e, rules, n - 1);
        match rule_match_spec(e, rules[n - 1].selectors) {
            Option::Some(sp) => {
                assert(forall|j: int| 0 <= j < acc.len() ==> acc.push((sp, n - 1))[j] == acc[j]);
            },
            Option::None => {},
        }
    }
}

proof fn lemma_matching_rules_push(e: ElementView, rules: Seq<RuleView>, r: RuleView, n: int)
    requires
        0 <= n <= rules.len(),
    ensures
        matching_rules_spec(e, rules.push(r), n) == matching_rules_spec(e, rules, n),
    decreases n,
{
    if n > 0 {
        lemma_matching_rules_push(e, rules, r, n - 1);
        assert(rules.push(r)[n - 1] == rules[n - 1]);
    }
}

/// The sequence is ordered by ascending specificity.
pub open spec fn sorted_by_specificity(t: Seq<(Specificity, int)>) -> bool {
    forall|a: int, b: int| 0 <= a < b < t.len() ==> spec_le(t[a].0, t[b].0)
}

/// Rules of equal specificity stand in ascending source order.
pub open spec fn stable_by_source(t: Seq<(Specificity, int)>) -> bool {
    forall|a: int, b: int|
        0 <= a < b < t.len() && (#[trigger] t[a]).0 == (#[trigger] t[b]).0 ==> t[a].1 < t[b].1
}

proof fn lemma_insert_shape(t: Seq<(Specificity, int)>, x: (Specificity, int))
    requires
        sorted_by_specificity(t),
    ensures
        exists|p: int|
            0 <= p <= t.len() && insert_sorted(t, x) == t.subrange(0, p).push(x) + t.subrange(
                p,
                t.len() as int,
            ) && (forall|k: int| p <= k < t.len() ==> !spec_le((#[trigger] t[k]).0, x.0)) && (
            forall|k: int| 0 <= k < p ==> spec_le((#[trigger] t[k]).0, x.0)),
    decreases t.len(),
{
    if t.len() == 0 {
        let p = 0int;
        assert(insert_sorted(t, x) =~= t.subrange(0, p).push(x) + t.subrange(
            p,
            t.len() as int,
        ));
    } else if spec_le(t.last().0, x.0) {
        let p = t.len() as int;
        assert(t.subrange(0, p) =~= t);
        assert(insert_sorted(t, x) =~= t.subrange(0, p).push(x) + t.subrange(
            p,
            t.len() as int,
        ));
        assert forall|k: int| 0 <= k < p implies spec_le((#[trigger] t[k]).0, x.0) by {
            if k < t.len() - 1 {
                assert(spec_le(t[k].0, t[t.len() - 1].0));
            }
        }
    } else {
        assert(sorted_by_specificity(t.drop_last())) by {
            assert(forall|a: int|
                0 <= a < t.len() - 1 ==> t.drop_last()[a] == t[a]);
        }
        lemma_insert_shape(t.drop_last(), x);
        let p = choose|p: int|
            0 <= p <= t.drop_last().len() && insert_sorted(t.drop_last(), x) == t.drop_last()
                .subrange(0, p).push(x) + t.drop_last().subrange(p, t.drop_last().len() as int)
                && (forall|k: int|
                p <= k < t.drop_last().len() ==> !spec_le(
                    (#[trigger] t.drop_last()[k]).0,
                    x.0,
                )) && (forall|k: int|
                0 <= k < p ==> spec_le((#[trigger] t.drop_last()[k]).0, x.0));
        assert(t.drop_last().subrange(0, p) =~= t.subrange(0, p));
        assert(insert_sorted(t, x) == insert_sorted(t.drop_last(), x).push(t.last()));
        assert(insert_sorted(t, x) =~= t.subrange(0, p).push(x) + t.subrange(
            p,
            t.len() as int,
        )) by {
            assert(forall|k: int|
                p <= k < t.len() - 1 ==> t.drop_last().subrange(p, t.drop_last().len() as int)[
                    k - p] == t[k]);
            assert(forall|k: int|
                p <= k < t.len() ==> t.subrange(p, t.len() as int)[k - p] == t[k]);
        }
        assert(forall|k: int| p <= k < t.len() - 1 ==> t.drop_last()[k] == t[k]);
        assert(forall|k: int| 0 <= k < p ==> t.drop_last()[k] == t[k]);
        assert forall|k: int| p <= k < t.len() implies !spec_le((#[trigger] t[k]).0, x.0) by {
            if k < t.len() - 1 {
                assert(!spec_le(t.drop_last()[k].0, x.0));
            }
        }
        assert(forall|k: int| 0 <= k < p ==> spec_le((#[trigger] t[k]).0, x.0));
    }
}

proof fn lemma_sort_props(s: Seq<(Specificity, int)>)
    requires
        forall|i: int, j: int| 0 <= i < j < s.len() ==> (#[trigger] s[i]).1 < (#[trigger] s[j]).1,
    ensures
        sorted_by_specificity(sort_rules(s)),
        stable_by_source(sort_rules(s)),
        sort_rules(s).len() == s.len(),
        forall|a: int|
            0 <= a < sort_rules(s).len() ==> s.contains(#[trigger] sort_rules(s)[a]),
    decreases s.len(),
{
    if s.len() > 0 {
        let init = s.drop_last();
        let x = s.last();
        assert(forall|i: int, j: int|
            0 <= i < j < init.len() ==> (#[trigger] init[i]).1 < (#[trigger] init[j]).1) by {
            assert(forall|a: int| 0 <= a < init.len() ==> init[a] == s[a]);
        }
        lemma_sort_props(init);
        let t = sort_rules(init);
        lemma_insert_shape(t, x);
        let p = choose|p: int|
            0 <= p <= t.len() && insert_sorted(t, x) == t.subrange(0, p).push(x) + t.subrange(
                p,
                t.len() as int,
            ) && (forall|k: int| p <= k < t.len() ==> !spec_le((#[trigger] t[k]).0, x.0)) && (
            forall|k: int| 0 <= k < p ==> spec_le((#[trigger] t[k]).0, x.0));
        let r = insert_sorted(t, x);
        assert(r == sort_rules(s));
        // Where each element of the result comes from.
        assert(forall|a: int| 0 <= a < p ==> r[a] == t[a]);
        assert(r[p] == x);
        assert(forall|a: int| p < a < r.len() ==> r[a] == t[a - 1]);
        // Every element of the input has a source index below x's.
        assert(forall|a: int| 0 <= a < t.len() ==> init.contains(#[trigger] t[a]));
        assert(forall|a: int| 0 <= a < t.len() ==> (#[trigger] t[a]).1 < x.1) by {
            assert forall|a: int| 0 <= a < t.len() implies (#[trigger] t[a]).1 < x.1 by {
                let i = choose|i: int| 0 <= i < init.len() && init[i] == t[a];
                assert(s[i] == t[a]);
                assert(s[i].1 < s[s.len() - 1].1);
            }
        }
        // Sortedness: prefix is at most x, suffix is above x.
        assert forall|a: int, b: int| 0 <= a < b < r.len() implies spec_le(r[a].0, r[b].0) by {
            if a < p && b == p {
            } else if a == p && b > p {
                assert(!spec_le(t[b - 1].0, x.0));
            } else if a < p && b > p {
                assert(spec_le(t[a].0, t[b - 1].0));
            }
        }
        // Stability: no element after x shares x's specificity.
        assert forall|a: int, b: int|
            0 <= a < b < r.len() && (#[trigger] r[a]).0 == (#[trigger] r[b]).0 implies r[a].1
            < r[b].1 by {
            if b == p {
                assert(r[a] == t[a]);
            } else if a == p && b > p {
                assert(!spec_le(t[b - 1].0, x.0));
                assert(spec_le(x.0, x.0));
            } else if a < p && b > p {
                assert(r[a] == t[a] && r[b] == t[b - 1]);
            } else if b < p {
                assert(r[a] == t[a] && r[b] == t[b]);
            } else if a > p {
                assert(r[a] == t[a - 1] && r[b] == t[b - 1]);
            }
        }
        assert forall|a: int| 0 <= a < r.len() implies s.contains(#[trigger] r[a]) by {
            if a == p {
                assert(s[s.len() - 1] == x);
            } else {
                let e = if a < p {
                    t[a]
                } else {
                    t[a - 1]
                };
                let i = choose|i: int| 0 <= i < init.len() && init[i] == e;
                assert(s[i] == e);
            }
        }
    }
}

/// Law: the cascade's sort is stable. The matched rules of any element,
/// sorted for the cascade, stand in ascending order of specificity, and
/// rules of equal specificity keep their source order — so of two equally
/// specific rules the later one in the stylesheet is applied later, and
/// its declarations win.
pub proof fn lemma_cascade_order(e: ElementView, rules: Seq<RuleView>)
    ensures
        sorted_by_specificity(
            sort_rules(matching_rules_spec(e, rules, rules.len() as int)),
        ),
        stable_by_source(sort_rules(matching_rules_spec(e, rules, rules.len() as int))),
{
    lemma_matching_rules_sources(e, rules, rules.len() as int);
    lemma_sort_props(matching_rules_spec(e, rules, rules.len() as int));
}

proof fn lemma_matching_rules_sources(e: ElementView, rules: Seq<RuleView>, n: int)
    requires
        0 <= n <= rules.len(),
    ensures
        forall|i: int, j: int|
            0 <= i < j < matching_rules_spec(e, rules, n).len() ==> (
            #[trigger] matching_rules_spec(e, rules, n)[i]).1 < (
            #[trigger] matching_rules_spec(e, rules, n)[j]).1,
        forall|i: int|
            0 <= i < matching_rules_spec(e, rules, n).len() ==> (
            #[trigger] matching_rules_spec(e, rules, n)[i]).1 < n,
    decreases n,
{
    if n > 0 {
        lemma_matching_rules_sources(e, rules, n - 1);
        let acc = matching_rules_spec(e, rules, n - 1);
        match rule_match_spec(e, rules[n - 1].selectors) {
            Option::Some(sp) => {
                assert(forall|i: int| 0 <= i < acc.len() ==> acc.push((sp, n - 1))[i] == acc[i]);
            },
            Option::None => {},
        }
    }
}

/// Law: selector matching is monotone — adding a rule to a stylesheet can
/// only overwrite or add properties of an element, never remove one.
pub proof fn lemma_cascade_monotone(
    e: ElementView,
    rules: Seq<RuleView>,
    r: RuleView,
    k: Seq<char>,
)
    requires
        specified_values_spec(e, rules).contains_key(k),
    ensures
        specified_values_spec(e, rules.push(r)).contains_key(k),
{
    let n = rules.len() as int;
    let ms = matching_rules_spec(e, rules, n);
    let ms2 = matching_rules_spec(e, rules.push(r), n + 1);
    lemma_matching_rules_push(e, rules, r, n);
    lemma_matching_rules_bounds(e, rules, n);
    lemma_matching_rules_bounds(e, rules.push(r), n + 1);
    let so = sort_rules(ms);
    let sn = sort_rules(ms2);
    assert(forall|j: int| 0 <= j < so.len() ==> 0 <= (#[trigger] so[j]).1 < rules.len()) by {
        assert forall|j: int| 0 <= j < so.len() implies 0 <= (#[trigger] so[j]).1
            < rules.len() by {
            lemma_sort_contains(ms, so[j]);
            assert(so.contains(so[j]));
            assert(ms.contains(so[j]));
            let i = choose|i: int| 0 <= i < ms.len() && ms[i] == so[j];
        }
    }
    lemma_apply_matched_at(Map::empty(), rules, so, so.len() as int, k);
    let j = choose|j: int| 0 <= j < so.len() && declares(rules[(#[trigger] so[j]).1], k);
    let x = so[j];
    lemma_sort_contains(ms, x);
    assert(so.contains(x)) by {
        assert(so[j] == x);
    }
    assert(ms.contains(x));
    assert(ms2.contains(x)) by {
        let i = choose|i: int| 0 <= i < ms.len() && ms[i] == x;
        match rule_match_spec(e, rules.push(r)[n].selectors) {
            Option::Some(sp) => {
                assert(ms2 == ms.push((sp, n)));
                assert(ms.push((sp, n))[i] == x);
            },
            Option::None => {
                assert(ms2 == ms);
            },
        }
    }
    lemma_sort_contains(ms2, x);
    let j2 = choose|j2: int| 0 <= j2 < sn.len() && sn[j2] == x;
    assert(forall|j: int| 0 <= j < sn.len() ==> 0 <= (#[trigger] sn[j]).1 < rules.push(
        r,
    ).len()) by {
        assert forall|j: int| 0 <= j < sn.len() implies 0 <= (#[trigger] sn[j]).1 < rules.push(
            r,
        ).len() by {
            lemma_sort_contains(ms2, sn[j]);
            let i = choose|i: int| 0 <= i < ms2.len() && ms2[i] == sn[j];
        }
    }
    lemma_apply_matched_at(Map::empty(), rules.push(r), sn, sn.len() as int, k);
    assert(rules.push(r)[x.1] == rules[x.1]);
    assert(declares(rules.push(r)[(sn[j2]).1], k));
}

/// Law: the cascade is stable — when two rules of equal specificity both
/// match an element and the later one sets a property, the later one's
/// (last) value for it wins. Stated for the two-rule stylesheet, where no
/// other rule interferes.
pub proof fn lemma_cascade_stable_pair(
    e: ElementView,
    r1: RuleView,
    r2: RuleView,
    k: Seq<char>,
    sp: Specificity,
)
    requires
        rule_match_spec(e, r1.selectors) == Option::Some(sp),
        rule_match_spec(e, r2.selectors) == Option::Some(sp),
        declares(r2, k),
    ensures
        specified_values_spec(e, seq![r1, r2]).contains_key(k),
        Option::Some(specified_values_spec(e, seq![r1, r2])[k]) == last_decl(
            r2.declarations,
            r2.declarations.len() as int,
            k,
        ),
{
    let rules = seq![r1, r2];
    assert(rules[0] == r1 && rules[1] == r2);
    let ms0 = matching_rules_spec(e, rules, 0);
    assert(ms0 =~= Seq::<(Specificity, int)>::empty());
    let ms1 = matching_rules_spec(e, rules, 1);
    assert(ms1 == ms0.push((sp, 0int)));
    assert(ms1 =~= seq![(sp, 0int)]);
    let ms = matching_rules_spec(e, rules, 2);
    assert(ms == ms1.push((sp, 1int)));
    assert(ms =~= seq![(sp, 0int), (sp, 1int)]);
    let sorted = sort_rules(ms);
    assert(ms.drop_last() =~= ms1);
    assert(ms1.drop_last() =~= ms0);
    assert(sort_rules(ms0) =~= Seq::<(Specificity, int)>::empty());
    assert(sort_rules(ms1) == insert_sorted(sort_rules(ms1.drop_last()), ms1.last()));
    assert(insert_sorted(sort_rules(ms0), (sp, 0int)) =~= seq![(sp, 0int)]);
    assert(sort_rules(ms1) =~= seq![(sp, 0int)]);
    assert(spec_le(sp, sp));
    assert(sorted == insert_sorted(sort_rules(ms.drop_last()), ms.last()));
    assert(sorted =~= seq![(sp, 0int), (sp, 1int)]);
    let m1 = apply_matched(Map::empty(), rules, sorted, 1);
    let ds2 = r2.declarations;
    lemma_apply_decls_at(m1, ds2, ds2.len() as int, k);
    assert(apply_matched(Map::empty(), rules, sorted, 2) == apply_decls(
        m1,
        ds2,
        ds2.len() as int,
    ));
}

/// Apply a stylesheet to an entire document tree, returning a styled tree.
#[verifier::loop_isolation(false)]
pub fn style_tree<'a>(root: &'a Node, stylesheet: &'a Stylesheet) -> (r: StyledNode<'a>)
    ensures
        r@ == style_tree_spec(root@, stylesheet@),
    decreases *root,
{
    let specified = match &root.node_type {
        NodeType::Text(_) => StrMap::new(),
        NodeType::Element(elem) => specified_values(elem, stylesheet),
    };
    let mut children: Vec<StyledNode<'a>> = Vec::new();
    let n = root.children.len();
    let ghost csv = root@.children;
    proof {
        lemma_nodes_view(root.children@);
    }
    let mut i: usize = 0;
    while i < n
        invariant
            n == root.children.len(),
            i <= n,
            csv == nodes_view(root.children@),
            csv.len() == n,
            forall|j: int| 0 <= j < n ==> csv[j] == node_view(root.children@[j]),
            styled_views(children@) == style_children_spec(csv, stylesheet@, i as int),
        decreases n - i,
    {
        let child = &root.children[i];
        let sc = style_tree(child, stylesheet);
        proof {
            assert(children@.push(sc).drop_last() =~= children@);
            assert(node_view(*child) == csv[i as int]);
        }
        children.push(sc);
        i = i + 1;
    }
    StyledNode { node: root, specified_values: specified, children }
}

} // verus!
