//! Building a document tree step by step through a cursor, and merging a fragment
//! into an existing tree.
use crate::query::{any_contains_named, attribute_value, contains_named, same_text};
use crate::tree::{
    attributes_view, lemma_nodes_of, lemma_nodes_of_push, nodes_of, with_child, with_text, Node,
    XmlAttribute, XmlTag,
};
use vstd::prelude::*;

verus! {

/// An element with a name and nothing else.
pub open spec fn new_node(name: Seq<char>) -> Node {
    Node { name, attributes: Seq::empty(), text: None, children: Seq::empty() }
}

/// The position of the first of `s` named `name`, or `s.len()` if there is none.
pub open spec fn child_index(s: Seq<Node>, name: Seq<char>) -> int
    decreases s.len(),
{
    if s.len() == 0 {
        0
    } else if s[0].name == name {
        0
    } else {
        1 + child_index(s.drop_first(), name)
    }
}

/// The element after `add_tag(name)` on it, with the new cursor left as it is: a
/// child named `name` is added unless one is there already.
pub open spec fn tag_added(n: Node, name: Seq<char>) -> Node {
    if child_index(n.children, name) < n.children.len() {
        n
    } else {
        with_child(n, new_node(name))
    }
}

/// How many of `s` are named `name`.
pub open spec fn count_named(s: Seq<Node>, name: Seq<char>) -> nat
    decreases s.len(),
{
    if s.len() == 0 {
        0
    } else {
        count_named(s.drop_last(), name) + if s.last().name == name {
            1nat
        } else {
            0nat
        }
    }
}

pub open spec fn with_attribute(n: Node, key: Seq<char>, value: Seq<char>) -> Node {
    Node { attributes: n.attributes.push((key, value)), ..n }
}

/// The position of the first of `s` that holds a node named `name`, or `s.len()`.
pub open spec fn first_containing(s: Seq<Node>, name: Seq<char>) -> int
    decreases s.len(),
{
    if s.len() == 0 {
        0
    } else if contains_named(s[0], name) {
        0
    } else {
        1 + first_containing(s.drop_first(), name)
    }
}

/// `n` after `extra` is appended to the children of its first node, in pre-order,
/// named `name`.
pub open spec fn merged(n: Node, name: Seq<char>, extra: Seq<Node>) -> Node
    decreases n,
{
    if n.name == name {
        Node { children: n.children + extra, ..n }
    } else {
        let i = first_containing(n.children, name);
        if 0 <= i < n.children.len() {
            Node { children: n.children.update(i, merged(n.children[i], name, extra)), ..n }
        } else {
            n
        }
    }
}

/// The number of levels of `n`.
pub open spec fn height(n: Node) -> nat
    decreases n,
{
    1 + max_height(n.children)
}

pub open spec fn max_height(s: Seq<Node>) -> nat
    decreases s,
{
    if s.len() == 0 {
        0
    } else {
        let a = max_height(s.drop_last());
        let b = height(s.last());
        if a < b {
            b
        } else {
            a
        }
    }
}

pub proof fn lemma_max_height(s: Seq<Node>, i: int)
    requires
        0 <= i < s.len(),
    ensures
        height(s[i]) <= max_height(s),
    decreases s.len(),
{
    if i < s.len() - 1 {
        lemma_max_height(s.drop_last(), i);
        assert(s.drop_last()[i] == s[i]);
    }
}

pub proof fn lemma_child_index(s: Seq<Node>, name: Seq<char>, i: int)
    requires
        0 <= i <= s.len(),
        forall|k: int| 0 <= k < i ==> s[k].name != name,
        i == s.len() || s[i].name == name,
    ensures
        child_index(s, name) == i,
    decreases s.len(),
{
    if s.len() > 0 && i > 0 {
        lemma_child_index(s.drop_first(), name, i - 1);
    }
}

proof fn lemma_child_index_bound(s: Seq<Node>, name: Seq<char>)
    ensures
        0 <= child_index(s, name) <= s.len(),
        child_index(s, name) < s.len() ==> s[child_index(s, name)].name == name,
        forall|k: int| 0 <= k < child_index(s, name) ==> s[k].name != name,
    decreases s.len(),
{
    if s.len() > 0 && s[0].name != name {
        lemma_child_index_bound(s.drop_first(), name);
        assert forall|k: int| 0 <= k < child_index(s, name) implies s[k].name != name by {
            if k > 0 {
                assert(s[k] == s.drop_first()[k - 1]);
            }
        }
    }
}

proof fn lemma_count_named_absent(s: Seq<Node>, name: Seq<char>)
    requires
        forall|k: int| 0 <= k < s.len() ==> s[k].name != name,
    ensures
        count_named(s, name) == 0,
    decreases s.len(),
{
    if s.len() > 0 {
        lemma_count_named_absent(s.drop_last(), name);
    }
}

/// A second `add_tag` of the same name on the same cursor adds nothing; after the
/// first, on an element with no child of that name, exactly one child has it.
pub proof fn lemma_add_tag_twice(n: Node, name: Seq<char>)
    ensures
        tag_added(tag_added(n, name), name) == tag_added(n, name),
        child_index(n.children, name) == n.children.len() ==> count_named(
            tag_added(n, name).children,
            name,
        ) == 1,
{
    lemma_child_index_bound(n.children, name);
    if child_index(n.children, name) == n.children.len() {
        let m = tag_added(n, name);
        let s = m.children;
        assert(s.drop_last() =~= n.children);
        lemma_count_named_absent(n.children, name);
        lemma_child_index(s, name, n.children.len() as int);
    }
}

proof fn lemma_first_containing(s: Seq<Node>, name: Seq<char>)
    ensures
        0 <= first_containing(s, name) <= s.len(),
        first_containing(s, name) < s.len() ==> contains_named(s[first_containing(s, name)], name),
        forall|k: int| 0 <= k < first_containing(s, name) ==> !contains_named(s[k], name),
    decreases s.len(),
{
    if s.len() > 0 && !contains_named(s[0], name) {
        lemma_first_containing(s.drop_first(), name);
        assert forall|k: int| 0 <= k < first_containing(s, name) implies !contains_named(
            s[k],
            name,
        ) by {
            if k > 0 {
                assert(s[k] == s.drop_first()[k - 1]);
            }
        }
    }
}

proof fn lemma_any_contains(s: Seq<Node>, name: Seq<char>)
    ensures
        any_contains_named(s, name) <==> exists|k: int|
            0 <= k < s.len() && #[trigger] contains_named(s[k], name),
    decreases s.len(),
{
    if s.len() > 0 {
        lemma_any_contains(s.drop_last(), name);
        if contains_named(s.last(), name) {
            assert(contains_named(s[s.len() - 1], name));
        }
        if any_contains_named(s.drop_last(), name) {
            let k = choose|k: int|
                0 <= k < s.drop_last().len() && #[trigger] contains_named(s.drop_last()[k], name);
            assert(s[k] == s.drop_last()[k]);
        }
        if exists|k: int| 0 <= k < s.len() && #[trigger] contains_named(s[k], name) {
            let k = choose|k: int| 0 <= k < s.len() && #[trigger] contains_named(s[k], name);
            if k < s.len() - 1 {
                assert(s[k] == s.drop_last()[k]);
                assert(contains_named(s.drop_last()[k], name));
            }
        }
    }
}

/// Merging into a tree with no node named like the fragment's root leaves the tree
/// as it is.
pub proof fn lemma_merge_absent(n: Node, name: Seq<char>, extra: Seq<Node>)
    requires
        !contains_named(n, name),
    ensures
        merged(n, name, extra) == n,
{
    lemma_first_containing(n.children, name);
    lemma_any_contains(n.children, name);
    if first_containing(n.children, name) < n.children.len() {
        assert(contains_named(n.children[first_containing(n.children, name)], name));
    }
}

impl XmlTag {
    /// An empty builder: a synthetic root whose children are the trees built.
    pub fn new_tag_builder() -> (r: XmlTag)
        ensures
            r@ == new_node("tag_builder_begin"@),
    {
        let r = XmlTag {
            name: "tag_builder_begin".to_string(),
            attributes: Vec::new(),
            text: None,
            child_tags: Vec::new(),
        };
        proof {
            assert(attributes_view(r.attributes@) =~= Seq::empty());
        }
        r
    }

    /// Takes out the last child, the tree most recently begun.
    pub fn built_tag(&mut self) -> (r: XmlTag)
        requires
            old(self).child_tags.len() > 0,
        ensures
            r == old(self).child_tags@.last(),
            final(self).child_tags@ == old(self).child_tags@.drop_last(),
            final(self).name == old(self).name,
            final(self).attributes == old(self).attributes,
            final(self).text == old(self).text,
    {
        self.child_tags.pop().unwrap()
    }

    /// The position of the first child named `name`, or the number of children.
    fn child_position(&self, name: &str) -> (r: usize)
        ensures
            r == child_index(self@.children, name@),
    {
        proof {
            lemma_nodes_of(self.child_tags@);
        }
        let mut i: usize = 0;
        while i < self.child_tags.len()
            invariant
                i <= self.child_tags.len(),
                self@.children.len() == self.child_tags@.len(),
                forall|j: int|
                    0 <= j < self.child_tags@.len() ==> #[trigger] self@.children[j]
                        == self.child_tags@[j]@,
                forall|k: int| 0 <= k < i ==> self@.children[k].name != name@,
            decreases self.child_tags.len() - i,
        {
            if same_text(self.child_tags[i].name.as_str(), name) {
                proof {
                    lemma_child_index(self@.children, name@, i as int);
                }
                return i;
            }
            i += 1;
        }
        proof {
            lemma_child_index(self@.children, name@, i as int);
        }
        i
    }

    /// Moves the cursor to the first child named `name`, adding an empty one as the
    /// last child if there is none.
    pub fn add_tag(&mut self, name: &str) -> (r: &mut XmlTag)
        ensures
            final(self).name == old(self).name,
            final(self).attributes == old(self).attributes,
            final(self).text == old(self).text,
            ({
                let i = child_index(old(self)@.children, name@);
                if i < old(self).child_tags.len() {
                    &&& *r == old(self).child_tags@[i]
                    &&& final(self).child_tags@ == old(self).child_tags@.update(i, *final(r))
                } else {
                    &&& r@ == new_node(name@)
                    &&& final(self).child_tags@ == old(self).child_tags@.push(*final(r))
                }
            }),
            *final(r) == *r ==> final(self)@ == tag_added(old(self)@, name@),
    {
        let i = self.child_position(name);
        proof {
            lemma_nodes_of(self.child_tags@);
            lemma_child_index_bound(self@.children, name@);
        }
        if i < self.child_tags.len() {
            proof {
                let s = self.child_tags@;
                assert(s.update(i as int, s[i as int]) =~= s);
            }
            &mut self.child_tags[i]
        } else {
            let tag = XmlTag {
                name: name.to_string(),
                attributes: Vec::new(),
                text: None,
                child_tags: Vec::new(),
            };
            proof {
                assert(attributes_view(tag.attributes@) =~= Seq::empty());
                assert(tag@ == new_node(name@));
                lemma_nodes_of_push(self.child_tags@, tag);
            }
            self.child_tags.push(tag);
            let last = self.child_tags.len() - 1;
            proof {
                let s = self.child_tags@;
                assert(s.update(last as int, s[last as int]) =~= s);
            }
            &mut self.child_tags[last]
        }
    }

    /// Appends `other` as the last child, as it is.
    pub fn direct_add_tag(&mut self, other: XmlTag) -> (r: &mut XmlTag)
        ensures
            *final(self) == *final(r),
            r@ == with_child(old(self)@, other@),
    {
        proof {
            lemma_nodes_of_push(self.child_tags@, other);
        }
        self.child_tags.push(other);
        self
    }

    /// Adds the attribute `key="value"` after the others. Each key is written once.
    pub fn add_attribute(&mut self, key: &str, value: &str) -> (r: &mut XmlTag)
        requires
            attribute_value(old(self)@.attributes, key@) is None,
        ensures
            *final(self) == *final(r),
            r@ == with_attribute(old(self)@, key@, value@),
    {
        let ghost a0 = self.attributes@;
        let a = XmlAttribute { name: key.to_string(), value: value.to_string() };
        self.attributes.push(a);
        proof {
            assert(attributes_view(self.attributes@) =~= attributes_view(a0).push((key@, value@)));
        }
        self
    }

    /// Adds each attribute of `attrs` in order. Each key is written once.
    pub fn add_attributes(&mut self, attrs: &Vec<XmlAttribute>) -> (r: &mut XmlTag)
        requires
            forall|i: int|
                0 <= i < attrs.len() ==> attribute_value(
                    old(self)@.attributes,
                    #[trigger] attrs@[i].name@,
                ) is None,
            forall|i: int, j: int|
                0 <= i < j < attrs.len() ==> attrs@[i].name@ != attrs@[j].name@,
        ensures
            *final(self) == *final(r),
            r@ == (Node {
                attributes: old(self)@.attributes + attributes_view(attrs@),
                ..old(self)@
            }),
    {
        let mut i: usize = 0;
        while i < attrs.len()
            invariant
                i <= attrs.len(),
                forall|j: int, k: int| 0 <= j < k < attrs.len() ==> attrs@[j].name@ != attrs@[k].name@,
                forall|j: int|
                    0 <= j < attrs.len() ==> attribute_value(
                        old(self)@.attributes,
                        #[trigger] attrs@[j].name@,
                    ) is None,
                self@ == (Node {
                    attributes: old(self)@.attributes + attributes_view(attrs@.take(i as int)),
                    ..old(self)@
                }),
            decreases attrs.len() - i,
        {
            proof {
                let prefix = attributes_view(attrs@.take(i as int));
                lemma_attribute_value_append(old(self)@.attributes, prefix, attrs@[i as int].name@);
                assert forall|k: int| 0 <= k < prefix.len() implies prefix[k].0 != attrs@[i as int].name@ by {
                    assert(prefix[k] == attrs@[k]@);
                }
                lemma_attribute_value_absent(prefix, attrs@[i as int].name@);
            }
            self.add_attribute(attrs[i].name.as_str(), attrs[i].value.as_str());
            proof {
                assert(attributes_view(attrs@.take(i as int + 1)) =~= attributes_view(
                    attrs@.take(i as int),
                ).push(attrs@[i as int]@));
                assert(old(self)@.attributes + attributes_view(attrs@.take(i as int + 1)) =~= (
                old(self)@.attributes + attributes_view(attrs@.take(i as int))).push(
                    attrs@[i as int]@,
                ));
            }
            i += 1;
        }
        proof {
            assert(attrs@.take(attrs.len() as int) =~= attrs@);
        }
        self
    }

    /// Sets the text, replacing any text there was.
    pub fn add_text(&mut self, text: &str)
        ensures
            final(self)@ == with_text(old(self)@, text@),
    {
        self.text = Some(text.to_string());
    }

    /// Appends the children of `other` to the first element of this tree, in
    /// pre-order, named like `other`; `other` loses them. Returns whether there was
    /// such an element; if not, both trees are left as they were.
    pub fn merge_tag(&mut self, other: &mut XmlTag) -> (r: bool)
        ensures
            r == contains_named(old(self)@, old(other)@.name),
            r ==> final(self)@ == merged(old(self)@, old(other)@.name, old(other)@.children),
            r ==> final(other)@ == (Node { children: Seq::empty(), ..old(other)@ }),
            !r ==> final(self)@ == old(self)@ && final(other)@ == old(other)@,
        decreases height(old(self)@),
    {
        proof {
            lemma_nodes_of(self.child_tags@);
        }
        if same_text(self.name.as_str(), other.name.as_str()) {
            let ghost c0 = self.child_tags@;
            let ghost o0 = other.child_tags@;
            self.child_tags.append(&mut other.child_tags);
            proof {
                lemma_nodes_of(self.child_tags@);
                lemma_nodes_of(o0);
                lemma_nodes_of(c0);
                assert(nodes_of(self.child_tags@) =~= nodes_of(c0) + nodes_of(o0));
                assert(nodes_of(other.child_tags@) =~= Seq::<Node>::empty());
            }
            return true;
        }
        let ghost name = other@.name;
        let ghost n = self@;
        proof {
            lemma_first_containing(n.children, name);
            lemma_any_contains(n.children, name);
        }
        let mut i: usize = 0;
        while i < self.child_tags.len()
            invariant
                i <= self.child_tags.len(),
                self@ == old(self)@,
                other@ == old(other)@,
                name == other@.name,
                n == self@,
                n.name != name,
                n.children.len() == self.child_tags@.len(),
                forall|j: int|
                    0 <= j < self.child_tags@.len() ==> #[trigger] n.children[j]
                        == self.child_tags@[j]@,
                forall|k: int| 0 <= k < i ==> !contains_named(n.children[k], name),
                0 <= first_containing(n.children, name) <= n.children.len(),
                first_containing(n.children, name) < n.children.len() ==> contains_named(
                    n.children[first_containing(n.children, name)],
                    name,
                ),
                forall|k: int|
                    0 <= k < first_containing(n.children, name) ==> !contains_named(
                        n.children[k],
                        name,
                    ),
                any_contains_named(n.children, name) <==> exists|k: int|
                    0 <= k < n.children.len() && #[trigger] contains_named(n.children[k], name),
            decreases self.child_tags.len() - i,
        {
            let ghost old_children = self.child_tags@;
            proof {
                lemma_max_height(n.children, i as int);
            }
            let child = &mut self.child_tags[i];
            if child.merge_tag(other) {
                proof {
                    assert(first_containing(n.children, name) == i);
                    lemma_nodes_of(self.child_tags@);
                    assert(nodes_of(self.child_tags@) =~= n.children.update(
                        i as int,
                        merged(n.children[i as int], name, old(other)@.children),
                    ));
                }
                return true;
            }
            proof {
                lemma_nodes_of(self.child_tags@);
                lemma_nodes_of(old_children);
                assert(nodes_of(self.child_tags@) =~= nodes_of(old_children));
            }
            i += 1;
        }
        proof {
            if any_contains_named(n.children, name) {
                let k = choose|k: int|
                    0 <= k < n.children.len() && #[trigger] contains_named(n.children[k], name);
                assert(!contains_named(n.children[k], name));
            }
        }
        false
    }
}

proof fn lemma_attribute_value_append(
    a: Seq<(Seq<char>, Seq<char>)>,
    b: Seq<(Seq<char>, Seq<char>)>,
    key: Seq<char>,
)
    requires
        attribute_value(a, key) is None,
    ensures
        attribute_value(a + b, key) == attribute_value(b, key),
    decreases a.len(),
{
    if a.len() > 0 {
        assert((a + b).drop_first() =~= a.drop_first() + b);
        lemma_attribute_value_append(a.drop_first(), b, key);
    } else {
        assert(a + b =~= b);
    }
}

proof fn lemma_attribute_value_absent(a: Seq<(Seq<char>, Seq<char>)>, key: Seq<char>)
    requires
        forall|k: int| 0 <= k < a.len() ==> a[k].0 != key,
    ensures
        attribute_value(a, key) is None,
    decreases a.len(),
{
    if a.len() > 0 {
        assert forall|k: int| 0 <= k < a.len() - 1 implies a.drop_first()[k].0 != key by {
            assert(a.drop_first()[k] == a[k + 1]);
        }
        lemma_attribute_value_absent(a.drop_first(), key);
    }
}

} // verus!
