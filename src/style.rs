use vstd::prelude::*;
use crate::css::{
    spec_le, spec_lt, specificity_lt, Declaration, Rule, Selector, SimpleSelector, Specificity,
    Stylesheet, Value,
};
use crate::dom::{ElementData, Node, NodeType};
use vstd::string::*;

verus! {

/// Property names mapped to values; no name occurs twice.
#[derive(Debug)]
pub struct PropertyMap {
    pub entries: Vec<Declaration>,
}

/// The map that a list of declarations with distinct names stands for.
pub open spec fn decl_map(entries: Seq<Declaration>) -> Map<Seq<char>, Value> {
    Map::new(
        |p: Seq<char>| exists|i: int| 0 <= i < entries.len() && #[trigger] entries[i].name@ == p,
        |p: Seq<char>|
            entries[choose|i: int| 0 <= i < entries.len() && #[trigger] entries[i].name@ == p].value,
    )
}

pub open spec fn names_distinct(entries: Seq<Declaration>) -> bool {
    forall|i: int, j: int|
        0 <= i < entries.len() && 0 <= j < entries.len() && i != j ==> entries[i].name@
            != entries[j].name@
}

/// The value of `p` in `m`, if any.
pub open spec fn map_get(m: Map<Seq<char>, Value>, p: Seq<char>) -> Option<Value> {
    if m.contains_key(p) {
        Some(m[p])
    } else {
        None
    }
}

impl PropertyMap {
    pub open spec fn wf(&self) -> bool {
        names_distinct(self.entries@)
    }

    pub open spec fn view(&self) -> Map<Seq<char>, Value> {
        decl_map(self.entries@)
    }

    pub fn new() -> (r: PropertyMap)
        ensures
            r.wf(),
            r.entries@.len() == 0,
            r@ == Map::<Seq<char>, Value>::empty(),
    {
        let r = PropertyMap { entries: Vec::new() };
        proof {
            assert(r@ =~= Map::<Seq<char>, Value>::empty());
        }
        r
    }

    /// The position of `name`, if present.
    fn position(&self, name: &String) -> (r: Option<usize>)
        requires
            self.wf(),
        ensures
            r matches Some(i) ==> i < self.entries@.len() && self.entries@[i as int].name@ == name@,
            r is None ==> !self@.contains_key(name@),
    {
        let mut i: usize = 0;
        while i < self.entries.len()
            invariant
                i <= self.entries@.len(),
                forall|j: int| 0 <= j < i ==> #[trigger] self.entries@[j].name@ != name@,
            decreases self.entries@.len() - i,
        {
            if self.entries[i].name == *name {
                return Some(i);
            }
            i = i + 1;
        }
        None
    }

    /// The value stored under `name`.
    pub fn get(&self, name: &String) -> (r: Option<Value>)
        requires
            self.wf(),
        ensures
            r == map_get(self@, name@),
    {
        match self.position(name) {
            Some(i) => {
                proof {
                    assert(self@.contains_key(name@));
                }
                Some(self.entries[i].value.copy())
            },
            None => None,
        }
    }

    /// Stores `value` under `name`, replacing what was there.
    pub fn insert(&mut self, name: &String, value: Value)
        requires
            old(self).wf(),
        ensures
            final(self).wf(),
            final(self)@ == old(self)@.insert(name@, value),
    {
        let ghost v = value;
        match self.position(name) {
            Some(i) => {
                let ghost e = self.entries@;
                self.entries.set(i, Declaration { name: name.clone(), value });
                proof {
                    assert forall|p: Seq<char>| #[trigger]
                        self@.contains_key(p) == old(self)@.insert(name@, v).contains_key(p) by {
                        if p != name@ && old(self)@.contains_key(p) {
                            let j = choose|j: int| 0 <= j < e.len() && #[trigger] e[j].name@ == p;
                            assert(self.entries@[j].name@ == p);
                        }
                        if p == name@ {
                            assert(self.entries@[i as int].name@ == p);
                        }
                    }
                    assert(self@ =~= old(self)@.insert(name@, v));
                }
            },
            None => {
                let ghost e = self.entries@;
                self.entries.push(Declaration { name: name.clone(), value });
                proof {
                    let n = e.len() as int;
                    assert(self.entries@[n].name@ == name@);
                    assert forall|p: Seq<char>| #[trigger]
                        self@.contains_key(p) == old(self)@.insert(name@, v).contains_key(p) by {
                        if p != name@ && old(self)@.contains_key(p) {
                            let j = choose|j: int| 0 <= j < e.len() && #[trigger] e[j].name@ == p;
                            assert(self.entries@[j].name@ == p);
                        }
                    }
                    assert(self@ =~= old(self)@.insert(name@, v));
                }
            },
        }
    }
}

/// Whether a simple selector matches an element: same tag name, same id, and
/// every class present, for each part that the selector gives.
pub open spec fn spec_matches_simple(elem: ElementData, sel: SimpleSelector) -> bool {
    &&& (sel.tag_name matches Some(t) ==> t@ == elem.tag_name@)
    &&& (sel.id matches Some(id) ==> elem.spec_id() == Some(id@))
    &&& forall|k: int| 0 <= k < sel.class@.len() ==> elem.spec_has_class(#[trigger] sel.class@[k]@)
}

pub open spec fn spec_matches(elem: ElementData, sel: Selector) -> bool {
    match sel {
        Selector::Simple(s) => spec_matches_simple(elem, s),
    }
}

/// The specificity of the first selector in `sels` that matches, if any does.
pub open spec fn first_match(elem: ElementData, sels: Seq<Selector>) -> Option<Specificity>
    decreases sels.len(),
{
    if sels.len() == 0 {
        None
    } else if spec_matches(elem, sels[0]) {
        Some(sels[0].spec_specificity())
    } else {
        first_match(elem, sels.drop_first())
    }
}

/// The value of the last declaration of `p` in `decls`, if any.
pub open spec fn last_decl(decls: Seq<Declaration>, p: Seq<char>) -> Option<Value>
    decreases decls.len(),
{
    if decls.len() == 0 {
        None
    } else if decls.last().name@ == p {
        Some(decls.last().value)
    } else {
        last_decl(decls.drop_last(), p)
    }
}

/// The specificity with which rule `i` matches.
pub open spec fn rank(elem: ElementData, rules: Seq<Rule>, i: int) -> Specificity {
    first_match(elem, rules[i].selectors@)->Some_0
}

/// Rule `i`, among the first `n`, matches the element and declares `p`.
pub open spec fn candidate(elem: ElementData, rules: Seq<Rule>, n: int, p: Seq<char>, i: int) -> bool {
    &&& 0 <= i < n
    &&& i < rules.len()
    &&& first_match(elem, rules[i].selectors@) is Some
    &&& last_decl(rules[i].declarations@, p) is Some
}

/// Rule `i` takes precedence over rule `j`: a higher specificity, or the same
/// one and a later place.
pub open spec fn outranks(elem: ElementData, rules: Seq<Rule>, i: int, j: int) -> bool {
    spec_lt(rank(elem, rules, j), rank(elem, rules, i)) || (rank(elem, rules, i) == rank(
        elem,
        rules,
        j,
    ) && j < i)
}

/// Rule `i` is the one whose declaration of `p` applies, among the first `n`.
pub open spec fn is_winner(elem: ElementData, rules: Seq<Rule>, n: int, p: Seq<char>, i: int) -> bool {
    &&& candidate(elem, rules, n, p, i)
    &&& forall|j: int| #[trigger]
        candidate(elem, rules, n, p, j) && j != i ==> outranks(elem, rules, i, j)
}

/// `m` is the cascade of the first `n` rules on the element: it holds exactly
/// the properties that some matching rule declares, each with the value from
/// the rule that takes precedence.
pub open spec fn cascaded(elem: ElementData, rules: Seq<Rule>, n: int, m: Map<Seq<char>, Value>) -> bool {
    &&& forall|p: Seq<char>| #[trigger]
        m.contains_key(p) <==> exists|i: int| #[trigger] candidate(elem, rules, n, p, i)
    &&& forall|p: Seq<char>| #[trigger]
        m.contains_key(p) ==> exists|i: int| #[trigger] is_winner(elem, rules, n, p, i)
    &&& forall|p: Seq<char>, i: int| #[trigger]
        is_winner(elem, rules, n, p, i) ==> m[p] == last_decl(rules[i].declarations@, p)->Some_0
}

/// Whether a simple selector matches an element.
pub fn matches_simple_selector(elem: &ElementData, selector: &SimpleSelector) -> (r: bool)
    ensures
        r == spec_matches_simple(*elem, *selector),
{
    if let Some(name) = &selector.tag_name {
        if elem.tag_name != *name {
            return false;
        }
    }
    if let Some(id) = &selector.id {
        match elem.id() {
            Some(own) => {
                if *own != *id {
                    return false;
                }
            },
            None => {
                return false;
            },
        }
    }
    let mut k: usize = 0;
    while k < selector.class.len()
        invariant
            k <= selector.class@.len(),
            forall|j: int| 0 <= j < k ==> elem.spec_has_class(#[trigger] selector.class@[j]@),
        decreases selector.class@.len() - k,
    {
        if !elem.has_class(&selector.class[k]) {
            return false;
        }
        k = k + 1;
    }
    true
}

/// Whether a selector matches an element.
pub fn matches(elem: &ElementData, selector: &Selector) -> (r: bool)
    ensures
        r == spec_matches(*elem, *selector),
{
    match selector {
        Selector::Simple(simple) => matches_simple_selector(elem, simple),
    }
}

/// The specificity of the first selector of `rule` that matches, if any does.
pub fn match_rule(elem: &ElementData, rule: &Rule) -> (r: Option<Specificity>)
    ensures
        r == first_match(*elem, rule.selectors@),
{
    let sels = &rule.selectors;
    let mut i: usize = 0;
    assert(sels@.subrange(0, sels@.len() as int) =~= sels@);
    while i < sels.len()
        invariant
            i <= sels@.len(),
            sels@ == rule.selectors@,
            first_match(*elem, sels@) == first_match(
                *elem,
                sels@.subrange(i as int, sels@.len() as int),
            ),
        decreases sels@.len() - i,
    {
        let ghost rest = sels@.subrange(i as int, sels@.len() as int);
        if matches(elem, &sels[i]) {
            let sp = sels[i].specificity();
            proof {
                assert(rest[0] == sels@[i as int]);
                assert(spec_matches(*elem, rest[0]));
                assert(first_match(*elem, rest) == Some(sp));
            }
            return Some(sp);
        }
        proof {
            assert(rest.drop_first() =~= sels@.subrange(i + 1, sels@.len() as int));
        }
        i = i + 1;
    }
    None
}

/// The rules that match an element, as (specificity, position) pairs in the
/// order of the sheet.
pub fn matching_rules(elem: &ElementData, stylesheet: &Stylesheet) -> (r: Vec<(Specificity, usize)>)
    ensures
        forall|k: int| 0 <= k < r@.len() ==> {
            let (s, i) = #[trigger] r@[k];
            i < stylesheet.rules@.len() && first_match(*elem, stylesheet.rules@[i as int].selectors@)
                == Some(s)
        },
        forall|k: int, l: int| 0 <= k < l < r@.len() ==> r@[k].1 < r@[l].1,
        forall|i: int|
            0 <= i < stylesheet.rules@.len() && (first_match(
                *elem,
                #[trigger] stylesheet.rules@[i].selectors@,
            ) is Some) ==> exists|k: int| 0 <= k < r@.len() && r@[k].1 == i,
{
    let rules = &stylesheet.rules;
    let mut r: Vec<(Specificity, usize)> = Vec::new();
    let mut i: usize = 0;
    while i < rules.len()
        invariant
            i <= rules@.len(),
            forall|k: int| 0 <= k < r@.len() ==> {
                let (s, j) = #[trigger] r@[k];
                j < i && first_match(*elem, rules@[j as int].selectors@) == Some(s)
            },
            forall|k: int, l: int| 0 <= k < l < r@.len() ==> r@[k].1 < r@[l].1,
            forall|j: int|
                0 <= j < i && (first_match(*elem, #[trigger] rules@[j].selectors@) is Some)
                    ==> exists|k: int| 0 <= k < r@.len() && r@[k].1 == j,
        decreases rules@.len() - i,
    {
        if let Some(s) = match_rule(elem, &rules[i]) {
            let ghost old_r = r@;
            r.push((s, i));
            proof {
                assert forall|j: int|
                    0 <= j < i + 1 && (first_match(*elem, #[trigger] rules@[j].selectors@) is Some)
                        implies exists|k: int| 0 <= k < r@.len() && r@[k].1 == j by {
                    if j < i {
                        let k = choose|k: int| 0 <= k < old_r.len() && old_r[k].1 == j;
                        assert(r@[k].1 == j);
                    } else {
                        assert(r@[old_r.len() as int].1 == j);
                    }
                }
            }
        }
        i = i + 1;
    }
    r
}

/// Values being cascaded, each with the specificity of the rule it came from.
struct Ranked {
    values: PropertyMap,
    ranks: Vec<Specificity>,
}

impl Ranked {
    spec fn wf(&self) -> bool {
        self.values.wf() && self.ranks@.len() == self.values.entries@.len()
    }

    spec fn rank_map(&self) -> Map<Seq<char>, Specificity> {
        let e = self.values.entries@;
        Map::new(
            |p: Seq<char>| self.values@.contains_key(p),
            |p: Seq<char>| self.ranks@[choose|i: int| 0 <= i < e.len() && #[trigger] e[i].name@ == p],
        )
    }

    /// Takes `value` for `name` unless the value held came from a rule of
    /// higher specificity.
    fn offer(&mut self, name: &String, value: Value, rank: Specificity)
        requires
            old(self).wf(),
        ensures
            final(self).wf(),
            if !old(self).values@.contains_key(name@) || !spec_lt(
                rank,
                old(self).rank_map()[name@],
            ) {
                &&& final(self).values@ == old(self).values@.insert(name@, value)
                &&& final(self).rank_map() == old(self).rank_map().insert(name@, rank)
            } else {
                &&& final(self).values@ == old(self).values@
                &&& final(self).rank_map() == old(self).rank_map()
            },
    {
        let ghost v = value;
        let ghost e = self.values.entries@;
        match self.values.position(name) {
            Some(i) => {
                proof {
                    assert(self.values@.contains_key(name@));
                    assert(self.rank_map()[name@] == self.ranks@[i as int]);
                }
                if specificity_lt(rank, self.ranks[i]) {
                    return;
                }
                self.values.entries.set(i, Declaration { name: name.clone(), value });
                self.ranks.set(i, rank);
                proof {
                    assert forall|p: Seq<char>| #[trigger]
                        self.values@.contains_key(p) == old(self).values@.insert(
                            name@,
                            v,
                        ).contains_key(p) by {
                        if p != name@ && old(self).values@.contains_key(p) {
                            let j = choose|j: int| 0 <= j < e.len() && #[trigger] e[j].name@ == p;
                            assert(self.values.entries@[j].name@ == p);
                        }
                        if p == name@ {
                            assert(self.values.entries@[i as int].name@ == p);
                        }
                    }
                    assert(self.values@ =~= old(self).values@.insert(name@, v));
                    assert(self.rank_map() =~= old(self).rank_map().insert(name@, rank));
                }
            },
            None => {
                self.values.entries.push(Declaration { name: name.clone(), value });
                self.ranks.push(rank);
                proof {
                    let n = e.len() as int;
                    assert(self.values.entries@[n].name@ == name@);
                    assert forall|p: Seq<char>| #[trigger]
                        self.values@.contains_key(p) == old(self).values@.insert(
                            name@,
                            v,
                        ).contains_key(p) by {
                        if p != name@ && old(self).values@.contains_key(p) {
                            let j = choose|j: int| 0 <= j < e.len() && #[trigger] e[j].name@ == p;
                            assert(self.values.entries@[j].name@ == p);
                        }
                    }
                    assert(self.values@ =~= old(self).values@.insert(name@, v));
                    assert(self.rank_map() =~= old(self).rank_map().insert(name@, rank));
                }
            },
        }
    }
}

/// How the cascade stands at property `p` after the declarations `d` of a
/// rule of specificity `s` were offered to `(m0, r0)`, giving `(m1, r1)`.
spec fn stepped_at(
    m0: Map<Seq<char>, Value>,
    r0: Map<Seq<char>, Specificity>,
    m1: Map<Seq<char>, Value>,
    r1: Map<Seq<char>, Specificity>,
    d: Seq<Declaration>,
    s: Specificity,
    p: Seq<char>,
) -> bool {
    let kept = m1.contains_key(p) == m0.contains_key(p) && (m0.contains_key(p) ==> m1[p] == m0[p]
        && r1[p] == r0[p]);
    &&& last_decl(d, p) is None ==> kept
    &&& last_decl(d, p) is Some ==> if m0.contains_key(p) && spec_lt(s, r0[p]) {
        kept
    } else {
        m1.contains_key(p) && m1[p] == last_decl(d, p)->Some_0 && r1[p] == s
    }
}

spec fn stepped(
    m0: Map<Seq<char>, Value>,
    r0: Map<Seq<char>, Specificity>,
    m1: Map<Seq<char>, Value>,
    r1: Map<Seq<char>, Specificity>,
    d: Seq<Declaration>,
    s: Specificity,
) -> bool {
    forall|p: Seq<char>| #[trigger] stepped_at(m0, r0, m1, r1, d, s, p)
}

/// The ranks held are those of the rules that take precedence, and every
/// property held has such a rule.
spec fn ranked(
    elem: ElementData,
    rules: Seq<Rule>,
    n: int,
    m: Map<Seq<char>, Value>,
    r: Map<Seq<char>, Specificity>,
) -> bool {
    &&& forall|p: Seq<char>, i: int| #[trigger]
        is_winner(elem, rules, n, p, i) ==> r[p] == rank(elem, rules, i)
    &&& forall|p: Seq<char>| #[trigger]
        m.contains_key(p) ==> exists|i: int| #[trigger] is_winner(elem, rules, n, p, i)
}

proof fn lemma_winner_unique(elem: ElementData, rules: Seq<Rule>, n: int, p: Seq<char>, i: int, j: int)
    requires
        is_winner(elem, rules, n, p, i),
        is_winner(elem, rules, n, p, j),
    ensures
        i == j,
{
    if i != j {
        assert(candidate(elem, rules, n, p, j));
        assert(candidate(elem, rules, n, p, i));
    }
}

/// Offering the declarations of rule `n` to the cascade of the rules before
/// it gives the cascade of the rules up to and including it.
proof fn lemma_cascade_step(
    elem: ElementData,
    rules: Seq<Rule>,
    n: int,
    m0: Map<Seq<char>, Value>,
    r0: Map<Seq<char>, Specificity>,
    m1: Map<Seq<char>, Value>,
    r1: Map<Seq<char>, Specificity>,
)
    requires
        0 <= n < rules.len(),
        first_match(elem, rules[n].selectors@) is Some,
        cascaded(elem, rules, n, m0),
        ranked(elem, rules, n, m0, r0),
        stepped(m0, r0, m1, r1, rules[n].declarations@, rank(elem, rules, n)),
    ensures
        cascaded(elem, rules, n + 1, m1),
        ranked(elem, rules, n + 1, m1, r1),
{
    let d = rules[n].declarations@;
    let s = rank(elem, rules, n);
    assert forall|p: Seq<char>| #[trigger]
        m1.contains_key(p) <==> exists|i: int| #[trigger] candidate(elem, rules, n + 1, p, i) by {
        assert(stepped_at(m0, r0, m1, r1, d, s, p));
        if last_decl(d, p) is Some {
            assert(candidate(elem, rules, n + 1, p, n));
        } else {
            if exists|i: int| #[trigger] candidate(elem, rules, n + 1, p, i) {
                let i = choose|i: int| #[trigger] candidate(elem, rules, n + 1, p, i);
                assert(candidate(elem, rules, n, p, i));
            }
            if m0.contains_key(p) {
                let i = choose|i: int| #[trigger] candidate(elem, rules, n, p, i);
                assert(candidate(elem, rules, n + 1, p, i));
            }
        }
    }
    assert forall|p: Seq<char>|
        #![trigger m1.contains_key(p)]
        (m1.contains_key(p) ==> exists|i: int| #[trigger] is_winner(elem, rules, n + 1, p, i)) && (forall|
            i: int,
        |
            #[trigger] is_winner(elem, rules, n + 1, p, i) ==> m1[p] == last_decl(
                rules[i].declarations@,
                p,
            )->Some_0 && r1[p] == rank(elem, rules, i)) by {
        assert(stepped_at(m0, r0, m1, r1, d, s, p));
        if last_decl(d, p) is None {
            assert forall|i: int| #[trigger]
                is_winner(elem, rules, n + 1, p, i) <==> is_winner(elem, rules, n, p, i) by {
                assert(!candidate(elem, rules, n + 1, p, n));
                if is_winner(elem, rules, n, p, i) {
                    assert forall|j: int| #[trigger]
                        candidate(elem, rules, n + 1, p, j) && j != i implies outranks(
                        elem,
                        rules,
                        i,
                        j,
                    ) by {
                        assert(candidate(elem, rules, n, p, j));
                    }
                }
                if is_winner(elem, rules, n + 1, p, i) {
                    assert forall|j: int| #[trigger]
                        candidate(elem, rules, n, p, j) && j != i implies outranks(
                        elem,
                        rules,
                        i,
                        j,
                    ) by {
                        assert(candidate(elem, rules, n + 1, p, j));
                    }
                }
            }
            if m1.contains_key(p) {
                let w = choose|i: int| #[trigger] is_winner(elem, rules, n, p, i);
                assert(is_winner(elem, rules, n + 1, p, w));
            }
        } else {
            assert(candidate(elem, rules, n + 1, p, n));
            if m0.contains_key(p) {
                let w = choose|i: int| #[trigger] is_winner(elem, rules, n, p, i);
                assert(r0[p] == rank(elem, rules, w));
                if spec_lt(s, r0[p]) {
                    assert forall|j: int| #[trigger]
                        candidate(elem, rules, n + 1, p, j) && j != w implies outranks(
                        elem,
                        rules,
                        w,
                        j,
                    ) by {
                        if j < n {
                            assert(candidate(elem, rules, n, p, j));
                        }
                    }
                    assert(is_winner(elem, rules, n + 1, p, w));
                    assert forall|i: int| #[trigger]
                        is_winner(elem, rules, n + 1, p, i) implies m1[p] == last_decl(
                        rules[i].declarations@,
                        p,
                    )->Some_0 && r1[p] == rank(elem, rules, i) by {
                        lemma_winner_unique(elem, rules, n + 1, p, i, w);
                    }
                } else {
                    assert forall|j: int| #[trigger]
                        candidate(elem, rules, n + 1, p, j) && j != n implies outranks(
                        elem,
                        rules,
                        n,
                        j,
                    ) by {
                        assert(candidate(elem, rules, n, p, j));
                        if j != w {
                            assert(outranks(elem, rules, w, j));
                        }
                    }
                    assert(is_winner(elem, rules, n + 1, p, n));
                    assert forall|i: int| #[trigger]
                        is_winner(elem, rules, n + 1, p, i) implies m1[p] == last_decl(
                        rules[i].declarations@,
                        p,
                    )->Some_0 && r1[p] == rank(elem, rules, i) by {
                        lemma_winner_unique(elem, rules, n + 1, p, i, n);
                    }
                }
            } else {
                assert forall|j: int| #[trigger]
                    candidate(elem, rules, n + 1, p, j) && j != n implies outranks(
                    elem,
                    rules,
                    n,
                    j,
                ) by {
                    assert(candidate(elem, rules, n, p, j));
                }
                assert(is_winner(elem, rules, n + 1, p, n));
                assert forall|i: int| #[trigger]
                    is_winner(elem, rules, n + 1, p, i) implies m1[p] == last_decl(
                    rules[i].declarations@,
                    p,
                )->Some_0 && r1[p] == rank(elem, rules, i) by {
                    lemma_winner_unique(elem, rules, n + 1, p, i, n);
                }
            }
        }
    }
    assert forall|p: Seq<char>, i: int| #[trigger]
        is_winner(elem, rules, n + 1, p, i) implies m1[p] == last_decl(
        rules[i].declarations@,
        p,
    )->Some_0 by {
        assert(m1.contains_key(p));
    }
    assert forall|p: Seq<char>, i: int| #[trigger]
        is_winner(elem, rules, n + 1, p, i) implies r1[p] == rank(elem, rules, i) by {
        assert(m1.contains_key(p));
    }
}

/// A rule that does not match leaves the cascade as it was.
proof fn lemma_cascade_skip(
    elem: ElementData,
    rules: Seq<Rule>,
    n: int,
    m: Map<Seq<char>, Value>,
    r: Map<Seq<char>, Specificity>,
)
    requires
        0 <= n < rules.len(),
        first_match(elem, rules[n].selectors@) is None,
        cascaded(elem, rules, n, m),
        ranked(elem, rules, n, m, r),
    ensures
        cascaded(elem, rules, n + 1, m),
        ranked(elem, rules, n + 1, m, r),
{
    assert forall|p: Seq<char>, i: int|
        #![trigger candidate(elem, rules, n + 1, p, i)]
        #![trigger candidate(elem, rules, n, p, i)]
        candidate(elem, rules, n + 1, p, i) == candidate(elem, rules, n, p, i) by {}
    assert forall|p: Seq<char>, i: int| #[trigger]
        is_winner(elem, rules, n + 1, p, i) == is_winner(elem, rules, n, p, i) by {}
    assert forall|p: Seq<char>| #[trigger]
        m.contains_key(p) <==> exists|i: int| #[trigger] candidate(elem, rules, n + 1, p, i) by {
        if m.contains_key(p) {
            let i = choose|i: int| #[trigger] candidate(elem, rules, n, p, i);
            assert(candidate(elem, rules, n + 1, p, i));
        }
    }
    assert forall|p: Seq<char>| #[trigger]
        m.contains_key(p) implies exists|i: int| #[trigger] is_winner(elem, rules, n + 1, p, i) by {
        let i = choose|i: int| #[trigger] is_winner(elem, rules, n, p, i);
        assert(is_winner(elem, rules, n + 1, p, i));
    }
}

/// The cascaded values of an element: for each property that a matching rule
/// declares, the value from the rule of highest specificity, the later rule
/// where two have the same one.
pub fn specified_values(elem: &ElementData, stylesheet: &Stylesheet) -> (r: PropertyMap)
    ensures
        r.wf(),
        cascaded(*elem, stylesheet.rules@, stylesheet.rules@.len() as int, r@),
{
    let rules = &stylesheet.rules;
    let mut acc = Ranked { values: PropertyMap::new(), ranks: Vec::new() };
    let mut n: usize = 0;
    while n < rules.len()
        invariant
            n <= rules@.len(),
            rules@ == stylesheet.rules@,
            acc.wf(),
            cascaded(*elem, rules@, n as int, acc.values@),
            ranked(*elem, rules@, n as int, acc.values@, acc.rank_map()),
        decreases rules@.len() - n,
    {
        if let Some(s) = match_rule(elem, &rules[n]) {
            let decls = &rules[n].declarations;
            let ghost m0 = acc.values@;
            let ghost r0 = acc.rank_map();
            let mut k: usize = 0;
            proof {
                assert forall|p: Seq<char>| #[trigger]
                    stepped_at(m0, r0, m0, r0, decls@.take(0), s, p) by {
                    assert(last_decl(decls@.take(0), p) is None);
                }
            }
            while k < decls.len()
                invariant
                    k <= decls@.len(),
                    n < rules@.len(),
                    decls@ == rules@[n as int].declarations@,
                    acc.wf(),
                    stepped(m0, r0, acc.values@, acc.rank_map(), decls@.take(k as int), s),
                decreases decls@.len() - k,
            {
                let ghost m = acc.values@;
                let ghost r = acc.rank_map();
                let ghost dk = decls@[k as int];
                acc.offer(&decls[k].name, decls[k].value.copy(), s);
                proof {
                    let t = decls@.take(k + 1);
                    assert(t.drop_last() =~= decls@.take(k as int));
                    assert forall|p: Seq<char>| #[trigger]
                        stepped_at(m0, r0, acc.values@, acc.rank_map(), t, s, p) by {
                        assert(stepped_at(m0, r0, m, r, decls@.take(k as int), s, p));
                        assert(t.last() == dk);
                        assert(last_decl(t, p) == if dk.name@ == p {
                            Some(dk.value)
                        } else {
                            last_decl(decls@.take(k as int), p)
                        });
                    }
                }
                k = k + 1;
            }
            proof {
                assert(decls@.take(decls@.len() as int) =~= decls@);
                lemma_cascade_step(*elem, rules@, n as int, m0, r0, acc.values@, acc.rank_map());
            }
        } else {
            proof {
                lemma_cascade_skip(*elem, rules@, n as int, acc.values@, acc.rank_map());
            }
        }
        n = n + 1;
    }
    acc.values
}

/// A document node with its cascaded values, and its children, in order.
#[derive(Debug)]
pub struct StyledNode<'a> {
    pub node: &'a Node,
    pub specified_values: PropertyMap,
    pub children: Vec<StyledNode<'a>>,
}

/// How a node takes part in layout.
#[derive(Clone, Copy, Debug, PartialEq, Eq, Structural)]
pub enum Display {
    Inline,
    Block,
    DisplayNone,
}

/// `s` is the styled tree of document node `n` under `rules`: the same shape,
/// each element with its cascaded values, each text node with none.
pub open spec fn is_style_tree(s: StyledNode, n: Node, rules: Seq<Rule>) -> bool
    decreases n,
{
    &&& *s.node == n
    &&& s.specified_values.wf()
    &&& match n.node_type {
        NodeType::Element(e) => cascaded(e, rules, rules.len() as int, s.specified_values@),
        NodeType::Text(_) => s.specified_values@ == Map::<Seq<char>, Value>::empty(),
    }
    &&& s.children@.len() == n.children@.len()
    &&& forall|i: int|
        0 <= i < n.children@.len() ==> is_style_tree(
            #[trigger] s.children@[i],
            n.children@[i],
            rules,
        )
}

/// Every node of the styled tree holds a well-formed property map.
pub open spec fn styled_wf(s: StyledNode) -> bool
    decreases s,
{
    &&& s.specified_values.wf()
    &&& forall|i: int| 0 <= i < s.children@.len() ==> styled_wf(#[trigger] s.children@[i])
}

proof fn lemma_styled_intro(s: StyledNode, n: Node, rules: Seq<Rule>)
    requires
        *s.node == n,
        s.specified_values.wf(),
        match n.node_type {
            NodeType::Element(e) => cascaded(e, rules, rules.len() as int, s.specified_values@),
            NodeType::Text(_) => s.specified_values@ == Map::<Seq<char>, Value>::empty(),
        },
        s.children@.len() == n.children@.len(),
        forall|i: int|
            0 <= i < n.children@.len() ==> is_style_tree(
                #[trigger] s.children@[i],
                n.children@[i],
                rules,
            ) && styled_wf(s.children@[i]),
    ensures
        is_style_tree(s, n, rules),
        styled_wf(s),
{
}

/// The children of a well-formed styled node are well formed.
pub proof fn lemma_styled_child(s: StyledNode, i: int)
    requires
        styled_wf(s),
        0 <= i < s.children@.len(),
    ensures
        styled_wf(s.children@[i]),
{

}

/// The styled tree of a document under a style sheet.
pub fn style_tree<'a>(root: &'a Node, stylesheet: &'a Stylesheet) -> (r: StyledNode<'a>)
    ensures
        is_style_tree(r, *root, stylesheet.rules@),
        styled_wf(r),
    decreases root,
{
    let mut children: Vec<StyledNode<'a>> = Vec::new();
    let mut i: usize = 0;
    while i < root.children.len()
        invariant
            i <= root.children@.len(),
            children@.len() == i,
            forall|j: int|
                0 <= j < i ==> is_style_tree(
                    #[trigger] children@[j],
                    root.children@[j],
                    stylesheet.rules@,
                ) && styled_wf(children@[j]),
        decreases root.children@.len() - i,
    {
        let child = style_tree(&root.children[i], stylesheet);
        children.push(child);
        i = i + 1;
    }
    let specified_values = match &root.node_type {
        NodeType::Element(elem) => specified_values(elem, stylesheet),
        NodeType::Text(_) => PropertyMap::new(),
    };
    let r = StyledNode { node: root, specified_values, children };
    proof {
        lemma_styled_intro(r, *root, stylesheet.rules@);
    }
    r
}

pub open spec fn keyword_is(v: Option<Value>, k: Seq<char>) -> bool {
    v matches Some(Value::Keyword(s)) && s@ == k
}

impl<'a> StyledNode<'a> {
    /// The cascaded value of `name`.
    pub open spec fn spec_value(&self, name: Seq<char>) -> Option<Value> {
        map_get(self.specified_values@, name)
    }

    /// The value of `name`, else that of `fallback_name`, else `default`.
    pub open spec fn spec_lookup(&self, name: Seq<char>, fallback_name: Seq<char>, default: Value) -> Value {
        match self.spec_value(name) {
            Some(v) => v,
            None => match self.spec_value(fallback_name) {
                Some(v) => v,
                None => default,
            },
        }
    }

    /// `block` and `none` are read as such; any other value, or none, is inline.
    pub open spec fn spec_display(&self) -> Display {
        let v = self.spec_value(seq!['d', 'i', 's', 'p', 'l', 'a', 'y']);
        if keyword_is(v, seq!['b', 'l', 'o', 'c', 'k']) {
            Display::Block
        } else if keyword_is(v, seq!['n', 'o', 'n', 'e']) {
            Display::DisplayNone
        } else {
            Display::Inline
        }
    }

    pub fn value(&self, name: &str) -> (r: Option<Value>)
        requires
            self.specified_values.wf(),
        ensures
            r == self.spec_value(name@),
    {
        self.specified_values.get(&String::from_str(name))
    }

    pub fn lookup(&self, name: &str, fallback_name: &str, default: &Value) -> (r: Value)
        requires
            self.specified_values.wf(),
        ensures
            r == self.spec_lookup(name@, fallback_name@, *default),
    {
        match self.value(name) {
            Some(v) => v,
            None => match self.value(fallback_name) {
                Some(v) => v,
                None => default.copy(),
            },
        }
    }

    pub fn display(&self) -> (r: Display)
        requires
            self.specified_values.wf(),
        ensures
            r == self.spec_display(),
    {
        proof {
            reveal_strlit("display");
            reveal_strlit("block");
            reveal_strlit("none");
            assert("display"@ =~= seq!['d', 'i', 's', 'p', 'l', 'a', 'y']);
            assert("block"@ =~= seq!['b', 'l', 'o', 'c', 'k']);
            assert("none"@ =~= seq!['n', 'o', 'n', 'e']);
        }
        match self.value("display") {
            Some(Value::Keyword(s)) => {
                if s == String::from_str("block") {
                    Display::Block
                } else if s == String::from_str("none") {
                    Display::DisplayNone
                } else {
                    Display::Inline
                }
            },
            _ => Display::Inline,
        }
    }
}


/// In a cascade, when two matching rules declare the same property, the one
/// with higher specificity overrides the other whatever their order in the
/// sheet, and of two with equal specificity the later one does: the value
/// held comes from a rule other than the weaker one, which is the stronger one
/// or a rule that outranks it in turn.
pub proof fn lemma_cascade_precedence(
    elem: ElementData,
    rules: Seq<Rule>,
    m: Map<Seq<char>, Value>,
    p: Seq<char>,
    strong: int,
    weak: int,
)
    requires
        cascaded(elem, rules, rules.len() as int, m),
        candidate(elem, rules, rules.len() as int, p, strong),
        candidate(elem, rules, rules.len() as int, p, weak),
        strong != weak,
        outranks(elem, rules, strong, weak),
    ensures
        m.contains_key(p),
        exists|w: int|
            #[trigger] is_winner(elem, rules, rules.len() as int, p, w) && w != weak && (w == strong
                || outranks(elem, rules, w, strong)) && m[p] == last_decl(
                rules[w].declarations@,
                p,
            )->Some_0,
{
    let n = rules.len() as int;
    assert(m.contains_key(p));
    let w = choose|w: int| #[trigger] is_winner(elem, rules, n, p, w);
    if w == weak {
        assert(outranks(elem, rules, weak, strong));
    }
    assert(w == strong || outranks(elem, rules, w, strong));
}


/// The cascade of a sheet on an element is one map: two maps that are both
/// the cascade are equal.
pub proof fn lemma_cascade_unique(
    elem: ElementData,
    rules: Seq<Rule>,
    m1: Map<Seq<char>, Value>,
    m2: Map<Seq<char>, Value>,
)
    requires
        cascaded(elem, rules, rules.len() as int, m1),
        cascaded(elem, rules, rules.len() as int, m2),
    ensures
        m1 == m2,
{
    let n = rules.len() as int;
    assert forall|p: Seq<char>| #[trigger] m1.contains_key(p) implies m1[p] == m2[p] by {
        let w = choose|w: int| #[trigger] is_winner(elem, rules, n, p, w);
        assert(m2.contains_key(p));
    }
    assert forall|p: Seq<char>| #[trigger] m1.contains_key(p) == m2.contains_key(p) by {}
    assert(m1 =~= m2);
}

/// `a` and `b` hold the same property maps, node for node.
pub open spec fn same_styles(a: StyledNode, b: StyledNode) -> bool
    decreases a,
{
    &&& a.node == b.node
    &&& a.specified_values@ == b.specified_values@
    &&& a.children@.len() == b.children@.len()
    &&& forall|k: int|
        0 <= k < a.children@.len() ==> same_styles(#[trigger] a.children@[k], b.children@[k])
}

/// Resolving the styles of a document twice gives the same property maps.
pub proof fn lemma_style_tree_deterministic(a: StyledNode, b: StyledNode, n: Node, rules: Seq<Rule>)
    requires
        is_style_tree(a, n, rules),
        is_style_tree(b, n, rules),
    ensures
        same_styles(a, b),
    decreases n,
{
    match n.node_type {
        NodeType::Element(e) => {
            lemma_cascade_unique(e, rules, a.specified_values@, b.specified_values@);
        },
        NodeType::Text(_) => {},
    }
    assert forall|k: int| 0 <= k < a.children@.len() implies same_styles(
        #[trigger] a.children@[k],
        b.children@[k],
    ) by {
        assert(is_style_tree(a.children@[k], n.children@[k], rules));
        assert(is_style_tree(b.children@[k], n.children@[k], rules));
        lemma_style_tree_deterministic(a.children@[k], b.children@[k], n.children@[k], rules);
    }
}

} // verus!
