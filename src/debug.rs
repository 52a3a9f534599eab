//! A readable outline of a document tree, one line per start and end of an element.
use crate::builder::{height, lemma_max_height};
use crate::tree::{lemma_nodes_of, Node, XmlTag};
use vstd::prelude::*;
use vstd::string::StringExecFns;

verus! {

pub open spec fn spaces(n: nat) -> Seq<char> {
    Seq::new(n, |i: int| ' ')
}

/// `  key=value` for each attribute.
pub open spec fn attributes_text(attrs: Seq<(Seq<char>, Seq<char>)>) -> Seq<char>
    decreases attrs.len(),
{
    if attrs.len() == 0 {
        Seq::empty()
    } else {
        attributes_text(attrs.drop_last()) + "  "@ + attrs.last().0 + "="@ + attrs.last().1
    }
}

/// The outline of `n` indented by `depth` levels: `+name` and its attributes, the
/// text in angle brackets one level deeper, the children one level deeper, `-name`.
pub open spec fn outline(n: Node, depth: nat) -> Seq<char>
    decreases n,
{
    spaces(4 * depth) + "+"@ + n.name + attributes_text(n.attributes) + "\n"@ + text_line(
        n.text,
        depth,
    ) + children_outline(n.children, depth + 1) + spaces(4 * depth) + "-"@ + n.name + "\n"@
}

pub open spec fn children_outline(s: Seq<Node>, depth: nat) -> Seq<char>
    decreases s,
{
    if s.len() == 0 {
        Seq::empty()
    } else {
        children_outline(s.drop_last(), depth) + outline(s.last(), depth)
    }
}

/// Four spaces for each of `size` levels.
pub fn indent(size: usize) -> (r: String)
    requires
        size <= usize::MAX / 4,
    ensures
        r@ == spaces(4 * size as nat),
{
    let mut r = String::new();
    let mut i: usize = 0;
    proof {
        reveal_strlit("    ");
        assert(r@ =~= spaces(0));
    }
    while i < size
        invariant
            i <= size,
            r@ == spaces(4 * i as nat),
        decreases size - i,
    {
        r.append("    ");
        proof {
            reveal_strlit("    ");
            assert(r@ =~= spaces(4 * (i + 1) as nat));
        }
        i += 1;
    }
    r
}

/// The text in angle brackets, one level deeper than `depth`.
pub open spec fn text_line(t: Option<Seq<char>>, depth: nat) -> Seq<char> {
    match t {
        Some(t) => spaces(4 * (depth + 1)) + "<"@ + t + ">\n"@,
        None => Seq::empty(),
    }
}

/// Writes the `+name` line and the text line of `tag`.
fn write_head(tag: &XmlTag, depth: usize, out: &mut String)
    requires
        depth < usize::MAX / 4,
    ensures
        final(out)@ == old(out)@ + spaces(4 * depth as nat) + "+"@ + tag@.name + attributes_text(
            tag@.attributes,
        ) + "\n"@ + text_line(tag@.text, depth as nat),
{
    let ghost n = tag@;
    let pad = indent(depth);
    out.append(pad.as_str());
    out.append("+");
    out.append(tag.name.as_str());
    let ghost head = old(out)@ + spaces(4 * depth as nat) + "+"@ + n.name;
    let mut i: usize = 0;
    proof {
        assert(n.attributes.take(0) =~= Seq::<(Seq<char>, Seq<char>)>::empty());
        assert(out@ =~= head + attributes_text(n.attributes.take(0)));
    }
    while i < tag.attributes.len()
        invariant
            i <= tag.attributes.len(),
            n == tag@,
            n.attributes.len() == tag.attributes@.len(),
            out@ == head + attributes_text(n.attributes.take(i as int)),
        decreases tag.attributes.len() - i,
    {
        out.append("  ");
        out.append(tag.attributes[i].name.as_str());
        out.append("=");
        out.append(tag.attributes[i].value.as_str());
        proof {
            let t = n.attributes.take(i as int + 1);
            assert(t.drop_last() =~= n.attributes.take(i as int));
            assert(t.last() == tag.attributes@[i as int]@);
        }
        i += 1;
    }
    proof {
        assert(n.attributes.take(tag.attributes.len() as int) =~= n.attributes);
    }
    out.append("\n");
    let ghost o1 = out@;
    match &tag.text {
        Some(t) => {
            let pad = indent(depth + 1);
            out.append(pad.as_str());
            out.append("<");
            out.append(t.as_str());
            out.append(">\n");
            proof {
                assert(out@ =~= o1 + text_line(n.text, depth as nat));
            }
        },
        None => {
            proof {
                assert(out@ =~= o1 + text_line(n.text, depth as nat));
            }
        },
    }
}

fn write_outline(tag: &XmlTag, depth: usize, out: &mut String)
    requires
        depth + height(tag@) <= usize::MAX / 4,
    ensures
        final(out)@ == old(out)@ + outline(tag@, depth as nat),
    decreases tag,
{
    let ghost n = tag@;
    proof {
        lemma_nodes_of(tag.child_tags@);
    }
    write_head(tag, depth, out);
    let ghost mid = out@;
    let mut j: usize = 0;
    proof {
        assert(n.children.take(0) =~= Seq::<Node>::empty());
        assert(out@ =~= mid + children_outline(n.children.take(0), depth as nat + 1));
    }
    while j < tag.child_tags.len()
        invariant
            j <= tag.child_tags.len(),
            n == tag@,
            depth + height(n) <= usize::MAX / 4,
            n.children.len() == tag.child_tags@.len(),
            forall|k: int|
                0 <= k < tag.child_tags@.len() ==> #[trigger] n.children[k]
                    == tag.child_tags@[k]@,
            out@ == mid + children_outline(n.children.take(j as int), depth as nat + 1),
        decreases tag.child_tags.len() - j,
    {
        proof {
            lemma_max_height(n.children, j as int);
        }
        write_outline(&tag.child_tags[j], depth + 1, out);
        proof {
            let c = n.children.take(j as int + 1);
            assert(c.drop_last() =~= n.children.take(j as int));
            assert(c.last() == n.children[j as int]);
        }
        j += 1;
    }
    proof {
        assert(n.children.take(tag.child_tags.len() as int) =~= n.children);
    }
    let ghost o2 = out@;
    let pad = indent(depth);
    out.append(pad.as_str());
    out.append("-");
    out.append(tag.name.as_str());
    out.append("\n");
    proof {
        assert(out@ =~= o2 + (spaces(4 * depth as nat) + "-"@ + n.name + "\n"@));
        assert(outline(n, depth as nat) =~= spaces(4 * depth as nat) + "+"@ + n.name
            + attributes_text(n.attributes) + "\n"@ + text_line(n.text, depth as nat)
            + children_outline(n.children, depth as nat + 1) + (spaces(4 * depth as nat) + "-"@
            + n.name + "\n"@));
    }
}

impl XmlTag {
    /// The outline of this tree, indented by `depth` levels.
    pub fn debug_text(&self, depth: usize) -> (r: String)
        requires
            depth + height(self@) <= usize::MAX / 4,
        ensures
            r@ == outline(self@, depth as nat),
    {
        let mut out = String::new();
        write_outline(self, depth, &mut out);
        proof {
            assert(out@ =~= outline(self@, depth as nat));
        }
        out
    }
}

} // verus!
