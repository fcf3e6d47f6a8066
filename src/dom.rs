use vstd::prelude::*;

verus! {

/// The attributes of an element, as (name, value) pairs in document order.
pub type AttrMap = Vec<(String, String)>;

/// An element: its tag name and attributes.
#[derive(Debug)]
pub struct ElementData {
    pub tag_name: String,
    pub attributes: AttrMap,
}

#[derive(Debug)]
pub enum NodeType {
    Element(ElementData),
    Text(String),
}

/// A document node and its children, in order.
#[derive(Debug)]
pub struct Node {
    pub children: Vec<Node>,
    pub node_type: NodeType,
}

/// A text leaf.
pub fn text(data: String) -> (r: Node)
    ensures
        r.children@.len() == 0,
        r.node_type == NodeType::Text(data),
{
    Node { children: Vec::new(), node_type: NodeType::Text(data) }
}

/// An element with its children.
pub fn elem(tag_name: String, attributes: AttrMap, children: Vec<Node>) -> (r: Node)
    ensures
        r.children == children,
        r.node_type == NodeType::Element(ElementData { tag_name, attributes }),
{
    Node { children, node_type: NodeType::Element(ElementData { tag_name, attributes }) }
}

/// The value of the first attribute called `name` among `attrs`, if any.
pub open spec fn attr_value(attrs: Seq<(String, String)>, name: Seq<char>) -> Option<Seq<char>>
    decreases attrs.len(),
{
    if attrs.len() == 0 {
        None
    } else if attrs[0].0@ == name {
        Some(attrs[0].1@)
    } else {
        attr_value(attrs.drop_first(), name)
    }
}

/// The whitespace characters that separate class names.
pub open spec fn is_space(c: char) -> bool {
    c == ' ' || c == '\t' || c == '\n' || c == '\r' || c == '\x0C'
}

/// Whether `c` is one of the whitespace-separated words of `list`.
pub open spec fn has_word(list: Seq<char>, c: Seq<char>) -> bool {
    &&& c.len() > 0
    &&& forall|k: int| 0 <= k < c.len() ==> !is_space(#[trigger] c[k])
    &&& exists|i: int|
        0 <= i && i + c.len() <= list.len() && #[trigger] list.subrange(i, i + c.len()) == c
            && (i == 0 || is_space(list[i - 1])) && (i + c.len() == list.len() || is_space(
            list[i + c.len()],
        ))
}

impl ElementData {
    pub open spec fn spec_id(&self) -> Option<Seq<char>> {
        attr_value(self.attributes@, seq!['i', 'd'])
    }

    /// The class attribute, or the empty list where there is none.
    pub open spec fn spec_class_list(&self) -> Seq<char> {
        match attr_value(self.attributes@, seq!['c', 'l', 'a', 's', 's']) {
            Some(v) => v,
            None => Seq::empty(),
        }
    }

    /// Whether the element carries class `c`.
    pub open spec fn spec_has_class(&self, c: Seq<char>) -> bool {
        has_word(self.spec_class_list(), c)
    }

    /// The value of the attribute `name`.
    pub fn attr(&self, name: &str) -> (r: Option<&String>)
        ensures
            r matches Some(v) ==> attr_value(self.attributes@, name@) == Some(v@),
            r is None ==> attr_value(self.attributes@, name@) is None,
    {
        let key = String::from_str(name);
        let mut i: usize = 0;
        assert(self.attributes@.subrange(0, self.attributes@.len() as int) =~= self.attributes@);
        while i < self.attributes.len()
            invariant
                i <= self.attributes@.len(),
                key@ == name@,
                attr_value(self.attributes@, name@) == attr_value(
                    self.attributes@.subrange(i as int, self.attributes@.len() as int),
                    name@,
                ),
            decreases self.attributes@.len() - i,
        {
            let ghost rest = self.attributes@.subrange(i as int, self.attributes@.len() as int);
            if self.attributes[i].0 == key {
                return Some(&self.attributes[i].1);
            }
            proof {
                assert(rest.drop_first() =~= self.attributes@.subrange(
                    i + 1,
                    self.attributes@.len() as int,
                ));
            }
            i = i + 1;
        }
        None
    }

    /// The id attribute.
    pub fn id(&self) -> (r: Option<&String>)
        ensures
            r matches Some(v) ==> self.spec_id() == Some(v@),
            r is None ==> self.spec_id() is None,
    {
        proof {
            reveal_strlit("id");
            assert("id"@ =~= seq!['i', 'd']);
        }
        self.attr("id")
    }

    /// Whether `c` is one of the words of the class attribute.
    pub fn has_class(&self, c: &String) -> (r: bool)
        ensures
            r == self.spec_has_class(c@),
    {
        proof {
            reveal_strlit("class");
            assert("class"@ =~= seq!['c', 'l', 'a', 's', 's']);
        }
        match self.attr("class") {
            Some(v) => contains_word(v, c),
            None => {
                proof {
                    assert(self.spec_class_list().len() == 0);
                }
                contains_word(&String::new(), c)
            },
        }
    }
}

/// The characters of a string.
fn chars_of(s: &String) -> (r: Vec<char>)
    ensures
        r@ == s@,
{
    let n = s.as_str().unicode_len();
    let mut r: Vec<char> = Vec::new();
    let mut i: usize = 0;
    while i < n
        invariant
            n == s@.len(),
            i <= n,
            r@ =~= s@.subrange(0, i as int),
        decreases n - i,
    {
        r.push(s.as_str().get_char(i));
        i = i + 1;
    }
    r
}

fn is_space_char(c: char) -> (r: bool)
    ensures
        r == is_space(c),
{
    c == ' ' || c == '\t' || c == '\n' || c == '\r' || c == '\x0C'
}

/// Whether `c` is one of the whitespace-separated words of `list`.
pub fn contains_word(list: &String, c: &String) -> (r: bool)
    ensures
        r == has_word(list@, c@),
{
    let l = chars_of(list);
    let w = chars_of(c);
    let n = l.len();
    let m = w.len();
    if m == 0 {
        return false;
    }
    let mut k: usize = 0;
    while k < m
        invariant
            k <= m,
            m == w@.len(),
            w@ == c@,
            forall|j: int| 0 <= j < k ==> !is_space(#[trigger] w@[j]),
        decreases m - k,
    {
        if is_space_char(w[k]) {
            proof {
                assert(is_space(c@[k as int]));
            }
            return false;
        }
        k = k + 1;
    }
    if m > n {
        proof {
            assert forall|i: int|
                0 <= i && i + m <= n implies #[trigger] l@.subrange(i, i + m) != w@ by {}
        }
        return false;
    }
    let mut i: usize = 0;
    while i <= n - m
        invariant
            m <= n,
            n == l@.len(),
            w@ == c@,
            l@ == list@,
            m == w@.len(),
            m > 0,
            forall|j: int| 0 <= j < m ==> !is_space(#[trigger] w@[j]),
            forall|j: int|
                0 <= j < i ==> !(#[trigger] l@.subrange(j, j + m) == w@ && (j == 0 || is_space(
                    l@[j - 1],
                )) && (j + m == n || is_space(l@[j + m]))),
        decreases n - m + 1 - i,
    {
        let before = i == 0 || is_space_char(l[i - 1]);
        let after = i + m == n || is_space_char(l[i + m]);
        if before && after {
            let mut k: usize = 0;
            let mut same = true;
            while k < m
                invariant
                    k <= m,
                    i + m <= n,
                    n == l@.len(),
                    m == w@.len(),
                    same == forall|j: int| 0 <= j < k ==> l@[i + j] == w@[j],
                decreases m - k,
            {
                if l[i + k] != w[k] {
                    same = false;
                }
                k = k + 1;
            }
            if same {
                proof {
                    assert(l@.subrange(i as int, i + m) =~= w@);
                    assert(l@.subrange(i as int, i + m) == c@);
                }
                return true;
            }
            proof {
                if l@.subrange(i as int, i + m) == w@ {
                    assert forall|j: int| 0 <= j < m implies l@[i + j] == w@[j] by {
                        assert(l@.subrange(i as int, i + m)[j] == l@[i + j]);
                    }
                }
            }
        }
        i = i + 1;
    }
    false
}

} // verus!
