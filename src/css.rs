use vstd::prelude::*;

verus! {

/// A color with red, green, blue and alpha channels.
#[derive(Clone, Copy, Debug, PartialEq, Eq, Structural)]
pub struct Color {
    pub r: u8,
    pub g: u8,
    pub b: u8,
    pub a: u8,
}

/// The unit of a length; only pixels are known.
#[derive(Clone, Copy, Debug, PartialEq, Eq, Structural)]
pub enum Unit {
    Px,
}

/// A style value: a keyword, a length in pixels or a color.
#[derive(Debug)]
pub enum Value {
    Keyword(String),
    Length(i64, Unit),
    ColorValue(Color),
}

/// A simple selector: an optional tag name, an optional id and a list of classes.
#[derive(Debug)]
pub struct SimpleSelector {
    pub tag_name: Option<String>,
    pub id: Option<String>,
    pub class: Vec<String>,
}

#[derive(Debug)]
pub enum Selector {
    Simple(SimpleSelector),
}

/// One `name: value` pair of a rule.
#[derive(Debug)]
pub struct Declaration {
    pub name: String,
    pub value: Value,
}

/// A rule: it applies its declarations to every element that one of its
/// selectors matches.
#[derive(Debug)]
pub struct Rule {
    pub selectors: Vec<Selector>,
    pub declarations: Vec<Declaration>,
}

/// An ordered list of rules.
#[derive(Debug)]
pub struct Stylesheet {
    pub rules: Vec<Rule>,
}

/// Match strength of a selector: (id count, class count, tag count).
pub type Specificity = (usize, usize, usize);

/// Lexicographic strict order on specificities.
pub open spec fn spec_lt(a: Specificity, b: Specificity) -> bool {
    a.0 < b.0 || (a.0 == b.0 && (a.1 < b.1 || (a.1 == b.1 && a.2 < b.2)))
}

/// Lexicographic order on specificities, equality included.
pub open spec fn spec_le(a: Specificity, b: Specificity) -> bool {
    spec_lt(a, b) || a == b
}

pub open spec fn opt_count<T>(o: Option<T>) -> usize {
    if o is Some { 1 } else { 0 }
}

impl SimpleSelector {
    pub open spec fn spec_specificity(&self) -> Specificity {
        (opt_count(self.id), self.class@.len() as usize, opt_count(self.tag_name))
    }
}

impl Selector {
    pub open spec fn spec_specificity(&self) -> Specificity {
        match self {
            Selector::Simple(s) => s.spec_specificity(),
        }
    }

    /// Counts the id, the classes and the tag name of the selector.
    pub fn specificity(&self) -> (r: Specificity)
        ensures
            r == self.spec_specificity(),
    {
        let Selector::Simple(simple) = self;
        let a: usize = if simple.id.is_some() { 1 } else { 0 };
        let b: usize = simple.class.len();
        let c: usize = if simple.tag_name.is_some() { 1 } else { 0 };
        (a, b, c)
    }
}

/// Whether `a` is strictly weaker than `b`.
pub fn specificity_lt(a: Specificity, b: Specificity) -> (r: bool)
    ensures
        r == spec_lt(a, b),
{
    a.0 < b.0 || (a.0 == b.0 && (a.1 < b.1 || (a.1 == b.1 && a.2 < b.2)))
}

/// Specificity is a strict total order: irreflexive, transitive, and any two
/// distinct specificities are comparable one way exactly.
pub proof fn lemma_specificity_strict_total(a: Specificity, b: Specificity, c: Specificity)
    ensures
        !spec_lt(a, a),
        spec_lt(a, b) && spec_lt(b, c) ==> spec_lt(a, c),
        spec_lt(a, b) ==> !spec_lt(b, a),
        a != b ==> (spec_lt(a, b) || spec_lt(b, a)),
{
}

/// An id outweighs any number of classes, a class outweighs a tag name, and a
/// tag name outweighs nothing.
pub proof fn lemma_specificity_levels(n: usize)
    requires
        n >= 1,
    ensures
        spec_lt((0, n, 0), (1, 0, 0)),
        spec_lt((0, 0, 1), (0, n, 0)),
        spec_lt((0, 0, 0), (0, 0, 1)),
{
}

impl Value {
    /// The value in pixels: a length gives its number, anything else zero.
    pub open spec fn spec_to_px(&self) -> int {
        match self {
            Value::Length(n, _) => *n as int,
            _ => 0,
        }
    }

    pub open spec fn spec_is_auto(&self) -> bool {
        match self {
            Value::Keyword(k) => k@ == seq!['a', 'u', 't', 'o'],
            _ => false,
        }
    }

    pub fn to_px(&self) -> (r: i64)
        ensures
            r as int == self.spec_to_px(),
    {
        match self {
            Value::Length(n, _) => *n,
            _ => 0,
        }
    }

    /// Whether the value is the keyword `auto`.
    pub fn is_auto(&self) -> (r: bool)
        ensures
            r == self.spec_is_auto(),
    {
        match self {
            Value::Keyword(k) => {
                let auto = String::from_str("auto");
                proof {
                    reveal_strlit("auto");
                    assert(auto@ =~= seq!['a', 'u', 't', 'o']);
                }
                *k == auto
            },
            _ => false,
        }
    }

    /// A copy of the value.
    pub fn copy(&self) -> (r: Value)
        ensures
            r == *self,
    {
        match self {
            Value::Keyword(k) => Value::Keyword(k.clone()),
            Value::Length(n, u) => Value::Length(*n, *u),
            Value::ColorValue(c) => Value::ColorValue(*c),
        }
    }
}

} // verus!
