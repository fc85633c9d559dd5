//! The stylesheet data model: rules, selectors, declarations and values.
//! A stylesheet is an external input, produced by a CSS parser outside this
//! core; this module gives it a shape and the few queries the style and
//! layout engines need. Pixel quantities are whole pixels (`i64`).

use vstd::prelude::*;

verus! {

/// The one length unit of this core.
#[derive(Clone, Copy, PartialEq, Eq, Structural, Debug)]
pub enum Unit {
    Px,
}

/// An RGBA color.
#[derive(Clone, Copy, PartialEq, Eq, Structural, Debug)]
pub struct Color {
    pub r: u8,
    pub g: u8,
    pub b: u8,
    pub a: u8,
}

/// A declaration's value: a keyword, a pixel length, or a color.
#[derive(PartialEq, Debug)]
pub enum Value {
    Keyword(String),
    Length(i64, Unit),
    ColorValue(Color),
}

/// Mathematical model of a `Value`.
pub ghost enum ValueView {
    Keyword(Seq<char>),
    Length(int),
    ColorValue(Color),
}

impl View for Value {
    type V = ValueView;

    open spec fn view(&self) -> ValueView {
        match self {
            Value::Keyword(s) => ValueView::Keyword(s@),
            Value::Length(n, _) => ValueView::Length(*n as int),
            Value::ColorValue(c) => ValueView::ColorValue(*c),
        }
    }
}

impl Clone for Value {
    fn clone(&self) -> (r: Self)
        ensures
            r@ == self@,
    {
        match self {
            Value::Keyword(s) => Value::Keyword(s.clone()),
            Value::Length(n, u) => Value::Length(*n, *u),
            Value::ColorValue(c) => Value::ColorValue(*c),
        }
    }
}

/// Pixel size of a value: the length for `Length`, 0 for anything else.
pub open spec fn to_px_spec(v: ValueView) -> int {
    match v {
        ValueView::Length(n) => n,
        _ => 0,
    }
}

impl Value {
    /// Pixel size of this value; non-lengths count as zero.
    pub fn to_px(&self) -> (r: i64)
        ensures
            r as int == to_px_spec(self@),
    {
        match self {
            Value::Length(n, _) => *n,
            _ => 0,
        }
    }
}

/// A simple selector: optional tag name, optional id, list of class names.
pub struct SimpleSelector {
    pub tag_name: Option<String>,
    pub id: Option<String>,
    pub class: Vec<String>,
}

/// Mathematical model of a `SimpleSelector`.
pub ghost struct SelectorView {
    pub tag_name: Option<Seq<char>>,
    pub id: Option<Seq<char>>,
    pub class: Seq<Seq<char>>,
}

impl View for SimpleSelector {
    type V = SelectorView;

    open spec fn view(&self) -> SelectorView {
        SelectorView {
            tag_name: match self.tag_name {
                Option::Some(t) => Option::Some(t@),
                Option::None => Option::None,
            },
            id: match self.id {
                Option::Some(i) => Option::Some(i@),
                Option::None => Option::None,
            },
            class: self.class@.map_values(|c: String| c@),
        }
    }
}

/// A selector; this core knows only simple selectors.
pub enum Selector {
    Simple(SimpleSelector),
}

impl View for Selector {
    type V = SelectorView;

    open spec fn view(&self) -> SelectorView {
        match self {
            Selector::Simple(s) => s@,
        }
    }
}

/// Specificity triple: (id present, class count, tag present),
/// ordered lexicographically.
pub type Specificity = (usize, usize, usize);

/// The specificity of a selector, from its model.
pub open spec fn specificity_spec(s: SelectorView) -> Specificity {
    (
        (if s.id is Some { 1usize } else { 0usize }),
        s.class.len() as usize,
        (if s.tag_name is Some { 1usize } else { 0usize }),
    )
}

impl Selector {
    /// Specificity of this selector.
    pub fn specificity(&self) -> (r: Specificity)
        ensures
            r == specificity_spec(self@),
    {
        let Selector::Simple(simple) = self;
        let a: usize = if simple.id.is_some() { 1 } else { 0 };
        let b: usize = simple.class.len();
        let c: usize = if simple.tag_name.is_some() { 1 } else { 0 };
        (a, b, c)
    }
}

/// Lexicographic order on specificities.
pub open spec fn spec_le(a: Specificity, b: Specificity) -> bool {
    a.0 < b.0 || (a.0 == b.0 && (a.1 < b.1 || (a.1 == b.1 && a.2 <= b.2)))
}

/// One `name: value` declaration.
pub struct Declaration {
    pub name: String,
    pub value: Value,
}

/// Mathematical model of a `Declaration`.
pub ghost struct DeclarationView {
    pub name: Seq<char>,
    pub value: ValueView,
}

impl View for Declaration {
    type V = DeclarationView;

    open spec fn view(&self) -> DeclarationView {
        DeclarationView { name: self.name@, value: self.value@ }
    }
}

/// A rule: selectors (any of which may select an element) and declarations.
pub struct Rule {
    pub selectors: Vec<Selector>,
    pub declarations: Vec<Declaration>,
}

/// Mathematical model of a `Rule`.
pub ghost struct RuleView {
    pub selectors: Seq<SelectorView>,
    pub declarations: Seq<DeclarationView>,
}

impl View for Rule {
    type V = RuleView;

    open spec fn view(&self) -> RuleView {
        RuleView {
            selectors: self.selectors@.map_values(|s: Selector| s@),
            declarations: self.declarations@.map_values(|d: Declaration| d@),
        }
    }
}

/// An ordered list of rules.
pub struct Stylesheet {
    pub rules: Vec<Rule>,
}

impl View for Stylesheet {
    type V = Seq<RuleView>;

    open spec fn view(&self) -> Seq<RuleView> {
        self.rules@.map_values(|r: Rule| r@)
    }
}

} // verus!
