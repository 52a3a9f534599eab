//! Read-only searches over a document tree: by name at any depth, by a path of
//! names, and the text and attributes of what is found.
use crate::tree::{
    lemma_nodes_of, lemma_sizes_concat, pending_size, size, sizes, Node, XmlError, XmlTag,
};
use vstd::prelude::*;
use vstd::string::StrSliceExecFns;

verus! {

/// Every node of `n` named `name`, in pre-order: `n` itself before its descendants,
/// children in document order.
pub open spec fn find_by_name(n: Node, name: Seq<char>) -> Seq<Node>
    decreases n,
{
    (if n.name == name {
        seq![n]
    } else {
        Seq::empty()
    }) + find_in_nodes(n.children, name)
}

pub open spec fn find_in_nodes(s: Seq<Node>, name: Seq<char>) -> Seq<Node>
    decreases s,
{
    if s.len() == 0 {
        Seq::empty()
    } else {
        find_in_nodes(s.drop_last(), name) + find_by_name(s.last(), name)
    }
}

/// Some node of `n`, `n` included, is named `name`.
pub open spec fn contains_named(n: Node, name: Seq<char>) -> bool
    decreases n,
{
    n.name == name || any_contains_named(n.children, name)
}

pub open spec fn any_contains_named(s: Seq<Node>, name: Seq<char>) -> bool
    decreases s,
{
    s.len() > 0 && (any_contains_named(s.drop_last(), name) || contains_named(s.last(), name))
}

/// Staged search: the matches of the first segment anywhere under `n`, then under
/// each of them the matches of the rest of the path, in the order found.
pub open spec fn find_by_path(n: Node, segs: Seq<Seq<char>>) -> Seq<Node>
    decreases segs.len(), 0int,
{
    if segs.len() == 0 {
        seq![n]
    } else {
        find_path_in(find_by_name(n, segs[0]), segs.drop_first())
    }
}

pub open spec fn find_path_in(ms: Seq<Node>, segs: Seq<Seq<char>>) -> Seq<Node>
    decreases segs.len(), ms.len(),
{
    if ms.len() == 0 {
        Seq::empty()
    } else {
        find_path_in(ms.drop_last(), segs) + find_by_path(ms.last(), segs)
    }
}

/// The pieces of `s` between the `/` characters, empty pieces included.
pub open spec fn split_path(s: Seq<char>) -> Seq<Seq<char>>
    decreases s.len(),
{
    if s.len() == 0 {
        seq![Seq::empty()]
    } else {
        let init = split_path(s.drop_last());
        if s.last() == '/' {
            init.push(Seq::empty())
        } else {
            init.drop_last().push(init.last().push(s.last()))
        }
    }
}

/// The nodes at `path`, a `/`-separated list of names.
pub open spec fn nodes_at(n: Node, path: Seq<char>) -> Seq<Node> {
    find_by_path(n, split_path(path))
}

/// The text of the first node at `path`.
pub open spec fn text_at(n: Node, path: Seq<char>) -> Result<Seq<char>, XmlError> {
    let found = nodes_at(n, path);
    if found.len() == 0 {
        Err(XmlError::ContentMissing)
    } else {
        match found[0].text {
            Some(t) => Ok(t),
            None => Err(XmlError::ContentMissing),
        }
    }
}

/// The value of the first attribute named `key`.
pub open spec fn attribute_value(attrs: Seq<(Seq<char>, Seq<char>)>, key: Seq<char>) -> Option<
    Seq<char>,
>
    decreases attrs.len(),
{
    if attrs.len() == 0 {
        None
    } else if attrs[0].0 == key {
        Some(attrs[0].1)
    } else {
        attribute_value(attrs.drop_first(), key)
    }
}

/// The matches of each name in turn.
pub open spec fn find_each_name(n: Node, names: Seq<Seq<char>>) -> Seq<Node>
    decreases names.len(),
{
    if names.len() == 0 {
        Seq::empty()
    } else {
        find_each_name(n, names.drop_last()) + find_by_name(n, names.last())
    }
}

pub open spec fn refs_view(s: Seq<&XmlTag>) -> Seq<Node> {
    s.map_values(|t: &XmlTag| t@)
}

pub open spec fn strs_view(s: Seq<&str>) -> Seq<Seq<char>> {
    s.map_values(|t: &str| t@)
}

/// When a node's own name matches, the node comes first among the matches.
pub proof fn lemma_find_self_first(n: Node, name: Seq<char>)
    requires
        n.name == name,
    ensures
        find_by_name(n, name).len() > 0,
        find_by_name(n, name)[0] == n,
{
}

/// Where no node is named `name`, nothing is found.
pub proof fn lemma_find_none(n: Node, name: Seq<char>)
    requires
        !contains_named(n, name),
    ensures
        find_by_name(n, name) == Seq::<Node>::empty(),
    decreases n,
{
    lemma_find_none_in(n.children, name);
    assert(find_by_name(n, name) =~= Seq::<Node>::empty());
}

proof fn lemma_find_none_in(s: Seq<Node>, name: Seq<char>)
    requires
        !any_contains_named(s, name),
    ensures
        find_in_nodes(s, name) == Seq::<Node>::empty(),
    decreases s,
{
    if s.len() > 0 {
        lemma_find_none_in(s.drop_last(), name);
        lemma_find_none(s.last(), name);
        assert(find_in_nodes(s, name) =~= Seq::<Node>::empty());
    }
}

/// The matches still to be found by a walk whose stack is `frames`: the unvisited
/// children of each open element, innermost first.
pub open spec fn pending(frames: Seq<(&XmlTag, usize)>, name: Seq<char>) -> Seq<Node>
    decreases frames.len(),
{
    if frames.len() == 0 {
        Seq::empty()
    } else {
        find_in_nodes(frames.last().0@.children.skip(frames.last().1 as int), name) + pending(
            frames.drop_last(),
            name,
        )
    }
}

proof fn lemma_find_in_nodes_concat(a: Seq<Node>, b: Seq<Node>, name: Seq<char>)
    ensures
        find_in_nodes(a + b, name) == find_in_nodes(a, name) + find_in_nodes(b, name),
    decreases b.len(),
{
    if b.len() == 0 {
        assert(a + b =~= a);
        assert(find_in_nodes(a, name) + find_in_nodes(b, name) =~= find_in_nodes(a, name));
    } else {
        lemma_find_in_nodes_concat(a, b.drop_last(), name);
        assert((a + b).drop_last() =~= a + b.drop_last());
        assert((a + b).last() == b.last());
        assert(find_in_nodes(a + b, name) =~= find_in_nodes(a, name) + find_in_nodes(b, name));
    }
}

/// Visiting the `i`-th of `s` next: its matches, then those of the ones after it.
proof fn lemma_skip_step(s: Seq<Node>, i: int, name: Seq<char>)
    requires
        0 <= i < s.len(),
    ensures
        find_in_nodes(s.skip(i), name) == find_by_name(s[i], name) + find_in_nodes(
            s.skip(i + 1),
            name,
        ),
        sizes(s.skip(i)) == size(s[i]) + sizes(s.skip(i + 1)),
{
    let one = seq![s[i]];
    assert(s.skip(i) =~= one + s.skip(i + 1));
    lemma_find_in_nodes_concat(one, s.skip(i + 1), name);
    lemma_sizes_concat(one, s.skip(i + 1));
    assert(one.drop_last() =~= Seq::<Node>::empty());
    assert(one.last() == s[i]);
    assert(find_in_nodes(Seq::<Node>::empty(), name) =~= Seq::<Node>::empty());
    assert(sizes(Seq::<Node>::empty()) == 0);
    assert(find_in_nodes(one, name) =~= find_by_name(s[i], name));
}

/// `a` and `b` hold the same characters.
pub(crate) fn same_text(a: &str, b: &str) -> (r: bool)
    ensures
        r == (a@ == b@),
{
    let n = a.unicode_len();
    if n != b.unicode_len() {
        return false;
    }
    let mut i: usize = 0;
    while i < n
        invariant
            n == a@.len(),
            n == b@.len(),
            i <= n,
            forall|k: int| 0 <= k < i ==> a@[k] == b@[k],
        decreases n - i,
    {
        if a.get_char(i) != b.get_char(i) {
            return false;
        }
        i += 1;
    }
    assert(a@ =~= b@);
    true
}

/// The pieces of `path` between its `/` characters.
fn split_segments(path: &str) -> (r: Vec<&str>)
    ensures
        strs_view(r@) == split_path(path@),
{
    let n = path.unicode_len();
    let mut segs: Vec<&str> = Vec::new();
    let mut start: usize = 0;
    let mut i: usize = 0;
    proof {
        assert(path@.take(0) =~= Seq::<char>::empty());
        assert(path@.subrange(0, 0) =~= Seq::<char>::empty());
        assert(strs_view(segs@).push(path@.subrange(0, 0)) =~= seq![Seq::<char>::empty()]);
    }
    while i < n
        invariant
            n == path@.len(),
            start <= i <= n,
            strs_view(segs@).push(path@.subrange(start as int, i as int)) == split_path(
                path@.take(i as int),
            ),
        decreases n - i,
    {
        let c = path.get_char(i);
        let ghost before = strs_view(segs@);
        let ghost piece = path@.subrange(start as int, i as int);
        proof {
            assert(path@.take(i as int + 1).drop_last() =~= path@.take(i as int));
            assert(path@.take(i as int + 1).last() == c);
        }
        if c == '/' {
            let s = path.substring_char(start, i);
            segs.push(s);
            start = i + 1;
            proof {
                assert(strs_view(segs@) =~= before.push(piece));
                assert(path@.subrange(start as int, i as int + 1) =~= Seq::<char>::empty());
            }
        } else {
            proof {
                assert(path@.subrange(start as int, i as int + 1) =~= piece.push(c));
                assert(before.push(piece).drop_last() =~= before);
            }
        }
        i += 1;
    }
    let last = path.substring_char(start, n);
    segs.push(last);
    proof {
        assert(path@.take(n as int) =~= path@);
        assert(strs_view(segs@) =~= strs_view(segs@.drop_last()).push(last@));
    }
    segs
}

/// Appends to `res` what lies at `names[index..]` under `tag`.
fn collect_path<'a>(tag: &'a XmlTag, names: &Vec<&str>, index: usize, res: &mut Vec<&'a XmlTag>)
    requires
        index <= names.len(),
    ensures
        refs_view(final(res)@) == refs_view(old(res)@) + find_by_path(
            tag@,
            strs_view(names@).skip(index as int),
        ),
    decreases names.len() - index,
{
    let ghost segs = strs_view(names@).skip(index as int);
    if index == names.len() {
        res.push(tag);
        proof {
            assert(segs.len() == 0);
            assert(refs_view(final(res)@) =~= refs_view(old(res)@) + seq![tag@]);
        }
        return;
    }
    let found = tag.search_tags(names[index]);
    proof {
        assert(segs[0] == names@[index as int]@);
        assert(segs.drop_first() =~= strs_view(names@).skip(index as int + 1));
    }
    let ghost rest = segs.drop_first();
    let ghost fv = refs_view(found@);
    let mut j: usize = 0;
    while j < found.len()
        invariant
            j <= found.len(),
            index < names.len(),
            rest == strs_view(names@).skip(index as int + 1),
            fv == refs_view(found@),
            refs_view(res@) == refs_view(old(res)@) + find_path_in(fv.take(j as int), rest),
        decreases found.len() - j,
    {
        let ghost r0 = refs_view(res@);
        collect_path(found[j], names, index + 1, res);
        proof {
            assert(fv.take(j as int + 1).drop_last() =~= fv.take(j as int));
            assert(fv.take(j as int + 1).last() == found@[j as int]@);
            assert(refs_view(res@) =~= r0 + find_by_path(found@[j as int]@, rest));
        }
        j += 1;
    }
    proof {
        assert(fv.take(found.len() as int) =~= fv);
    }
}

/// Relies on std's `str::parse`: `Some` when `text` reads as a `T`. Which texts read
/// as a `T` is up to `T`'s `FromStr`.
#[verifier::external_body]
fn parse_text<T: core::str::FromStr>(text: &str) -> Option<T> {
    text.parse().ok()
}

impl XmlTag {
    /// Every element named `tag_name` in this tree, this element first if it matches,
    /// then each child's matches in document order. The walk keeps its own stack, so
    /// deep documents do not deepen the call stack.
    pub fn search_tags(&self, tag_name: &str) -> (r: Vec<&XmlTag>)
        ensures
            refs_view(r@) == find_by_name(self@, tag_name@),
    {
        let ghost name = tag_name@;
        let mut results: Vec<&XmlTag> = Vec::new();
        if same_text(self.name.as_str(), tag_name) {
            results.push(self);
        }
        let mut frames: Vec<(&XmlTag, usize)> = Vec::new();
        frames.push((self, 0));
        proof {
            assert(self@.children.skip(0) =~= self@.children);
            assert(frames@.last() == (self, 0usize));
            assert(frames@.drop_last() =~= Seq::<(&XmlTag, usize)>::empty());
            assert(pending(Seq::<(&XmlTag, usize)>::empty(), name) =~= Seq::<Node>::empty());
            assert(refs_view(results@) =~= (if self@.name == name {
                seq![self@]
            } else {
                Seq::empty()
            }));
            assert(pending(frames@, name) =~= find_in_nodes(self@.children, name));
        }
        while frames.len() > 0
            invariant
                name == tag_name@,
                forall|k: int|
                    0 <= k < frames@.len() ==> #[trigger] frames@[k].1 <= frames@[k].0@.children.len(),
                refs_view(results@) + pending(frames@, name) == find_by_name(self@, name),
            decreases pending_size(frames@), frames@.len(),
        {
            let last = frames.len() - 1;
            let (t, i) = frames[last];
            let ghost before = frames@;
            proof {
                lemma_nodes_of(t.child_tags@);
                assert(before =~= before.drop_last().push((t, i)));
            }
            if i < t.child_tags.len() {
                let c = &t.child_tags[i];
                let ghost r0 = results@;
                proof {
                    lemma_skip_step(t@.children, i as int, name);
                    assert(t@.children[i as int] == c@);
                }
                if same_text(c.name.as_str(), tag_name) {
                    results.push(c);
                }
                frames.pop();
                frames.push((t, i + 1));
                frames.push((c, 0));
                proof {
                    assert(c@.children.skip(0) =~= c@.children);
                    let mid = before.drop_last().push((t, (i + 1) as usize));
                    assert(frames@ =~= mid.push((c, 0usize)));
                    assert(frames@.drop_last() =~= mid);
                    assert(mid.drop_last() =~= before.drop_last());
                    let own = if c@.name == name {
                        seq![c@]
                    } else {
                        Seq::empty()
                    };
                    assert(refs_view(results@) =~= refs_view(r0) + own);
                    let rest = before.drop_last();
                    assert(frames@.last() == (c, 0usize));
                    assert(mid.last() == (t, (i + 1) as usize));
                    assert(before.last() == (t, i));
                    assert(pending(frames@, name) == find_in_nodes(c@.children, name) + pending(
                        mid,
                        name,
                    ));
                    assert(pending(mid, name) == find_in_nodes(t@.children.skip(i + 1), name)
                        + pending(rest, name));
                    assert(pending(before, name) == find_in_nodes(t@.children.skip(i as int), name)
                        + pending(rest, name));
                    assert(find_by_name(c@, name) == own + find_in_nodes(c@.children, name));
                    assert(refs_view(results@) + pending(frames@, name) =~= refs_view(r0)
                        + pending(before, name));
                    assert(pending_size(frames@) == sizes(c@.children) + pending_size(mid));
                    assert(pending_size(mid) == sizes(t@.children.skip(i + 1)) + pending_size(rest));
                    assert(pending_size(before) == sizes(t@.children.skip(i as int)) + pending_size(
                        rest,
                    ));
                    assert(size(c@) == 1 + sizes(c@.children));
                    assert forall|k: int| 0 <= k < frames@.len() implies #[trigger] frames@[k].1
                        <= frames@[k].0@.children.len() by {
                        if k < before.len() - 1 {
                            assert(frames@[k] == before[k]);
                        }
                    }
                }
            } else {
                frames.pop();
                proof {
                    assert(t@.children.skip(i as int) =~= Seq::<Node>::empty());
                    assert(frames@ =~= before.drop_last());
                    assert(before.last() == (t, i));
                    assert(sizes(Seq::<Node>::empty()) == 0);
                    assert(pending_size(before) == pending_size(frames@));
                    assert(find_in_nodes(Seq::<Node>::empty(), name) =~= Seq::<Node>::empty());
                    assert(pending(before, name) =~= pending(frames@, name));
                }
            }
        }
        proof {
            assert(pending(frames@, name) =~= Seq::<Node>::empty());
            assert(refs_view(results@) + Seq::<Node>::empty() =~= refs_view(results@));
        }
        results
    }

    /// The first element named `tag_name` in pre-order, if any.
    pub fn search_tag(&self, tag_name: &str) -> (r: Option<&XmlTag>)
        ensures
            match r {
                Some(t) => find_by_name(self@, tag_name@).len() > 0 && t@ == find_by_name(
                    self@,
                    tag_name@,
                )[0],
                None => find_by_name(self@, tag_name@).len() == 0,
            },
    {
        let found = self.search_tags(tag_name);
        if found.len() == 0 {
            None
        } else {
            Some(found[0])
        }
    }

    /// Every element at `path`, a `/`-separated list of names, each name matched at
    /// any depth below the match of the one before it.
    pub fn search_path(&self, path: &str) -> (r: Vec<&XmlTag>)
        ensures
            refs_view(r@) == nodes_at(self@, path@),
    {
        let names = split_segments(path);
        let mut ret: Vec<&XmlTag> = Vec::new();
        collect_path(self, &names, 0, &mut ret);
        proof {
            assert(strs_view(names@).skip(0) =~= strs_view(names@));
            assert(refs_view(ret@) =~= Seq::<Node>::empty() + nodes_at(self@, path@));
        }
        ret
    }

    /// Whether anything lies at `path`.
    pub fn path_exists(&self, path: &str) -> (r: bool)
        ensures
            r == (nodes_at(self@, path@).len() > 0),
    {
        let res = self.search_path(path);
        !res.is_empty()
    }

    /// The first element at `path`, if any.
    pub fn search_path_unique(&self, path: &str) -> (r: Option<&XmlTag>)
        ensures
            match r {
                Some(t) => nodes_at(self@, path@).len() > 0 && t@ == nodes_at(self@, path@)[0],
                None => nodes_at(self@, path@).len() == 0,
            },
    {
        let res = self.search_path(path);
        if res.len() == 0 {
            None
        } else {
            Some(res[0])
        }
    }

    /// How many elements lie at `path`.
    pub fn count_tag(&self, path: &str) -> (r: usize)
        ensures
            r == nodes_at(self@, path@).len(),
    {
        self.search_path(path).len()
    }

    /// The `n`-th element (counting from 1) at `path`.
    pub fn get_nth_tag(&self, path: &str, n: u8) -> (r: &XmlTag)
        requires
            1 <= n <= nodes_at(self@, path@).len(),
        ensures
            r@ == nodes_at(self@, path@)[n - 1],
    {
        let res = self.search_path(path);
        res[(n - 1) as usize]
    }

    /// The text of the first element at `tag_path`.
    pub fn get_tag_content(&self, tag_path: &str) -> (r: Result<String, XmlError>)
        ensures
            match r {
                Ok(s) => text_at(self@, tag_path@) == Ok::<Seq<char>, XmlError>(s@),
                Err(e) => text_at(self@, tag_path@) == Err::<Seq<char>, XmlError>(e),
            },
    {
        match self.search_path_unique(tag_path) {
            None => Err(XmlError::ContentMissing),
            Some(tag) => match &tag.text {
                Some(t) => Ok(t.clone()),
                None => Err(XmlError::ContentMissing),
            },
        }
    }

    /// The text of the first element at `tag_path`, read as a `T`.
    pub fn get_tag_content_as<T: core::str::FromStr>(&self, tag_path: &str) -> (r: Result<
        T,
        XmlError,
    >)
        ensures
            text_at(self@, tag_path@) is Err ==> r == Err::<T, XmlError>(
                text_at(self@, tag_path@)->Err_0,
            ),
            text_at(self@, tag_path@) is Ok ==> (r is Ok || r == Err::<T, XmlError>(
                XmlError::ContentMalformed,
            )),
    {
        match self.get_tag_content(tag_path) {
            Err(e) => Err(e),
            Ok(text) => match parse_text::<T>(text.as_str()) {
                Some(v) => Ok(v),
                None => Err(XmlError::ContentMalformed),
            },
        }
    }

    /// The value of the first attribute named `attr_name`.
    pub fn get_attribute_value(&self, attr_name: &str) -> (r: Option<String>)
        ensures
            match r {
                Some(v) => attribute_value(self@.attributes, attr_name@) == Some(v@),
                None => attribute_value(self@.attributes, attr_name@) is None,
            },
    {
        let ghost attrs = self@.attributes;
        proof {
            assert(attrs.skip(0) =~= attrs);
        }
        let mut i: usize = 0;
        while i < self.attributes.len()
            invariant
                i <= self.attributes.len(),
                attrs == self@.attributes,
                attrs.len() == self.attributes@.len(),
                attribute_value(attrs, attr_name@) == attribute_value(
                    attrs.skip(i as int),
                    attr_name@,
                ),
            decreases self.attributes.len() - i,
        {
            proof {
                assert(attrs[i as int] == self.attributes@[i as int]@);
                assert(attrs.skip(i as int)[0] == attrs[i as int]);
                assert(attrs.skip(i as int).drop_first() =~= attrs.skip(i as int + 1));
            }
            if same_text(self.attributes[i].name.as_str(), attr_name) {
                return Some(self.attributes[i].value.clone());
            }
            i += 1;
        }
        None
    }

    /// The value of the first attribute named `attr_name`, read as a `T`; `None` when
    /// there is no such attribute or its value does not read as a `T`.
    pub fn get_attribute_as<T: core::str::FromStr>(&self, attr_name: &str) -> (r: Option<T>)
        ensures
            attribute_value(self@.attributes, attr_name@) is None ==> r is None,
    {
        match self.get_attribute_value(attr_name) {
            None => None,
            Some(v) => parse_text::<T>(v.as_str()),
        }
    }

    /// Appends to `sink` the matches of each name of `tag_names` in turn.
    pub fn push_extra_tags_to<'a>(&'a self, tag_names: &[&str], sink: &mut Vec<&'a XmlTag>)
        ensures
            refs_view(final(sink)@) == refs_view(old(sink)@) + find_each_name(
                self@,
                strs_view(tag_names@),
            ),
    {
        let ghost names = strs_view(tag_names@);
        let mut i: usize = 0;
        while i < tag_names.len()
            invariant
                i <= tag_names.len(),
                names == strs_view(tag_names@),
                refs_view(sink@) == refs_view(old(sink)@) + find_each_name(
                    self@,
                    names.take(i as int),
                ),
            decreases tag_names.len() - i,
        {
            let mut found = self.search_tags(tag_names[i]);
            let ghost s0 = sink@;
            let ghost f0 = found@;
            sink.append(&mut found);
            proof {
                assert(refs_view(sink@) =~= refs_view(s0) + refs_view(f0));
                assert(names.take(i as int + 1).drop_last() =~= names.take(i as int));
                assert(names.take(i as int + 1).last() == tag_names@[i as int]@);
            }
            i += 1;
        }
        proof {
            assert(names.take(tag_names.len() as int) =~= names);
        }
    }
}

} // verus!
