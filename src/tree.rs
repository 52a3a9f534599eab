//! The document tree, its mathematical model, the parser from a structural event
//! stream and the serialiser back to one.
use vstd::prelude::*;

verus! {

/// One `key="value"` pair of an element.
#[derive(Debug, Clone, PartialEq, Eq)]
pub struct XmlAttribute {
    pub name: String,
    pub value: String,
}

impl View for XmlAttribute {
    type V = (Seq<char>, Seq<char>);

    open spec fn view(&self) -> (Seq<char>, Seq<char>) {
        (self.name@, self.value@)
    }
}

/// An element: its name, attributes in document order, the last text run read
/// inside it, and its children in document order. Each child is owned by its parent.
#[derive(Debug, PartialEq, Eq)]
pub struct XmlTag {
    pub name: String,
    pub attributes: Vec<XmlAttribute>,
    pub text: Option<String>,
    pub child_tags: Vec<XmlTag>,
}

/// The model of an element.
pub struct Node {
    pub name: Seq<char>,
    pub attributes: Seq<(Seq<char>, Seq<char>)>,
    pub text: Option<Seq<char>>,
    pub children: Seq<Node>,
}

pub open spec fn attributes_view(s: Seq<XmlAttribute>) -> Seq<(Seq<char>, Seq<char>)> {
    s.map_values(|a: XmlAttribute| a@)
}

pub open spec fn text_view(t: Option<String>) -> Option<Seq<char>> {
    match t {
        Some(s) => Some(s@),
        None => None,
    }
}

pub open spec fn node_of(t: XmlTag) -> Node
    decreases t,
{
    Node {
        name: t.name@,
        attributes: attributes_view(t.attributes@),
        text: text_view(t.text),
        children: nodes_of(t.child_tags@),
    }
}

pub open spec fn nodes_of(s: Seq<XmlTag>) -> Seq<Node>
    decreases s,
{
    if s.len() == 0 {
        Seq::empty()
    } else {
        nodes_of(s.drop_last()).push(node_of(s.last()))
    }
}

impl View for XmlTag {
    type V = Node;

    open spec fn view(&self) -> Node {
        node_of(*self)
    }
}

pub proof fn lemma_nodes_of(s: Seq<XmlTag>)
    ensures
        nodes_of(s).len() == s.len(),
        forall|i: int| 0 <= i < s.len() ==> #[trigger] nodes_of(s)[i] == node_of(s[i]),
    decreases s.len(),
{
    if s.len() > 0 {
        lemma_nodes_of(s.drop_last());
        assert forall|i: int| 0 <= i < s.len() - 1 implies #[trigger] s.drop_last()[i] == s[i] by {}
    }
}

pub proof fn lemma_nodes_of_push(s: Seq<XmlTag>, t: XmlTag)
    ensures
        nodes_of(s.push(t)) == nodes_of(s).push(node_of(t)),
{
    assert(s.push(t).drop_last() =~= s);
}

/// A structural event, as a markup tokenizer produces them.
#[derive(Debug, Clone, PartialEq, Eq)]
pub enum XmlEvent {
    StartElement { name: String, attributes: Vec<XmlAttribute> },
    EndElement { name: String },
    Characters { text: String },
    /// Anything else the tokenizer reports (comments, whitespace, declarations).
    Other,
    /// The tokenizer found the input not well formed.
    Failure,
}

/// The model of an event.
pub enum Event {
    Start { name: Seq<char>, attributes: Seq<(Seq<char>, Seq<char>)> },
    End { name: Seq<char> },
    Text { text: Seq<char> },
    Other,
    Failure,
}

impl View for XmlEvent {
    type V = Event;

    open spec fn view(&self) -> Event {
        match self {
            XmlEvent::StartElement { name, attributes } => Event::Start {
                name: name@,
                attributes: attributes_view(attributes@),
            },
            XmlEvent::EndElement { name } => Event::End { name: name@ },
            XmlEvent::Characters { text } => Event::Text { text: text@ },
            XmlEvent::Other => Event::Other,
            XmlEvent::Failure => Event::Failure,
        }
    }
}

pub open spec fn events_view(s: Seq<XmlEvent>) -> Seq<Event> {
    s.map_values(|e: XmlEvent| e@)
}

/// The ways the operations on documents fail.
#[derive(Debug, Clone, Copy, PartialEq, Eq, Structural)]
pub enum XmlError {
    /// An end tag that does not close the open element, text or an end tag outside
    /// any element, a stream that ends with elements still open, or input that the
    /// tokenizer could not read.
    MalformedDocument,
    /// No element at the path, or the element has no text.
    ContentMissing,
    /// The text is there but does not read as the requested type.
    ContentMalformed,
}

pub open spec fn with_child(n: Node, c: Node) -> Node {
    Node { children: n.children.push(c), ..n }
}

pub open spec fn with_text(n: Node, t: Seq<char>) -> Node {
    Node { text: Some(t), ..n }
}

/// The parser as a stack machine over `events`, from position `i` with the open
/// elements `stack` (innermost last).
pub open spec fn parse_from(events: Seq<Event>, i: int, stack: Seq<Node>) -> Result<
    Node,
    XmlError,
>
    decreases events.len() - i,
{
    if i < 0 || i >= events.len() {
        Err(XmlError::MalformedDocument)
    } else {
        match events[i] {
            Event::Start { name, attributes } => parse_from(
                events,
                i + 1,
                stack.push(Node { name, attributes, text: None, children: Seq::empty() }),
            ),
            Event::End { name } => {
                if stack.len() == 0 || stack.last().name != name {
                    Err(XmlError::MalformedDocument)
                } else if stack.len() == 1 {
                    Ok(stack.last())
                } else {
                    parse_from(
                        events,
                        i + 1,
                        stack.drop_last().drop_last().push(
                            with_child(stack[stack.len() - 2], stack.last()),
                        ),
                    )
                }
            },
            Event::Text { text } => {
                if stack.len() == 0 {
                    Err(XmlError::MalformedDocument)
                } else {
                    parse_from(events, i + 1, stack.drop_last().push(with_text(stack.last(), text)))
                }
            },
            Event::Other => parse_from(events, i + 1, stack),
            Event::Failure => Err(XmlError::MalformedDocument),
        }
    }
}

/// The tree that `events` describe: the first element that closes at the outermost
/// level. Whatever follows it is not read.
pub open spec fn parse(events: Seq<Event>) -> Result<Node, XmlError> {
    parse_from(events, 0, Seq::empty())
}

pub open spec fn tree_result(r: Result<XmlTag, XmlError>) -> Result<Node, XmlError> {
    match r {
        Ok(t) => Ok(t@),
        Err(e) => Err(e),
    }
}

pub open spec fn text_events(t: Option<Seq<char>>) -> Seq<Event> {
    match t {
        Some(s) => seq![Event::Text { text: s }],
        None => Seq::empty(),
    }
}

/// The events that describe `n`: its start with its attributes, its text, its
/// children in order, its end.
pub open spec fn events_of(n: Node) -> Seq<Event>
    decreases n,
{
    seq![Event::Start { name: n.name, attributes: n.attributes }] + text_events(n.text)
        + children_events(n.children) + seq![Event::End { name: n.name }]
}

pub open spec fn children_events(s: Seq<Node>) -> Seq<Event>
    decreases s,
{
    if s.len() == 0 {
        Seq::empty()
    } else {
        children_events(s.drop_last()) + events_of(s.last())
    }
}

/// The number of nodes of `n`, `n` included.
pub open spec fn size(n: Node) -> nat
    decreases n,
{
    1 + sizes(n.children)
}

pub open spec fn sizes(s: Seq<Node>) -> nat
    decreases s,
{
    if s.len() == 0 {
        0
    } else {
        sizes(s.drop_last()) + size(s.last())
    }
}

/// How many nodes a walk whose stack is `frames` has still to visit.
pub open spec fn pending_size(frames: Seq<(&XmlTag, usize)>) -> nat
    decreases frames.len(),
{
    if frames.len() == 0 {
        0
    } else {
        sizes(frames.last().0@.children.skip(frames.last().1 as int)) + pending_size(
            frames.drop_last(),
        )
    }
}

pub proof fn lemma_sizes_concat(a: Seq<Node>, b: Seq<Node>)
    ensures
        sizes(a + b) == sizes(a) + sizes(b),
    decreases b.len(),
{
    if b.len() == 0 {
        assert(a + b =~= a);
    } else {
        lemma_sizes_concat(a, b.drop_last());
        assert((a + b).drop_last() =~= a + b.drop_last());
        assert((a + b).last() == b.last());
    }
}

/// The events still to be written by a walk whose stack is `frames`: for each open
/// element, innermost first, its unvisited children and its end.
pub open spec fn pending_events(frames: Seq<(&XmlTag, usize)>) -> Seq<Event>
    decreases frames.len(),
{
    if frames.len() == 0 {
        Seq::empty()
    } else {
        children_events(frames.last().0@.children.skip(frames.last().1 as int)) + seq![
            Event::End { name: frames.last().0@.name },
        ] + pending_events(frames.drop_last())
    }
}

/// The events of `n` before its children: its start and its text.
pub open spec fn head_events(n: Node) -> Seq<Event> {
    seq![Event::Start { name: n.name, attributes: n.attributes }] + text_events(n.text)
}

proof fn lemma_children_events_concat(a: Seq<Node>, b: Seq<Node>)
    ensures
        children_events(a + b) == children_events(a) + children_events(b),
    decreases b.len(),
{
    if b.len() == 0 {
        assert(a + b =~= a);
        assert(children_events(a) + children_events(b) =~= children_events(a));
    } else {
        lemma_children_events_concat(a, b.drop_last());
        assert((a + b).drop_last() =~= a + b.drop_last());
        assert((a + b).last() == b.last());
        assert(children_events(a + b) =~= children_events(a) + children_events(b));
    }
}

proof fn lemma_events_skip_step(s: Seq<Node>, i: int)
    requires
        0 <= i < s.len(),
    ensures
        children_events(s.skip(i)) == events_of(s[i]) + children_events(s.skip(i + 1)),
        sizes(s.skip(i)) == size(s[i]) + sizes(s.skip(i + 1)),
{
    let one = seq![s[i]];
    assert(s.skip(i) =~= one + s.skip(i + 1));
    lemma_children_events_concat(one, s.skip(i + 1));
    lemma_sizes_concat(one, s.skip(i + 1));
    assert(one.drop_last() =~= Seq::<Node>::empty());
    assert(one.last() == s[i]);
    assert(children_events(Seq::<Node>::empty()) =~= Seq::<Event>::empty());
    assert(sizes(Seq::<Node>::empty()) == 0);
    assert(children_events(one) =~= events_of(s[i]));
}

/// `xs` stands in `evs` from position `i` on.
pub open spec fn occurs_at(evs: Seq<Event>, i: int, xs: Seq<Event>) -> bool {
    &&& 0 <= i
    &&& i + xs.len() <= evs.len()
    &&& forall|k: int| 0 <= k < xs.len() ==> evs[i + k] == #[trigger] xs[k]
}

proof fn lemma_occurs_split(evs: Seq<Event>, i: int, a: Seq<Event>, b: Seq<Event>)
    requires
        occurs_at(evs, i, a + b),
    ensures
        occurs_at(evs, i, a),
        occurs_at(evs, i + a.len(), b),
{
    assert forall|k: int| 0 <= k < a.len() implies evs[i + k] == #[trigger] a[k] by {
        assert((a + b)[k] == a[k]);
    }
    assert forall|k: int| 0 <= k < b.len() implies evs[i + a.len() + k] == #[trigger] b[k] by {
        assert((a + b)[a.len() + k] == b[k]);
        assert(i + (a.len() + k) == i + a.len() + k);
    }
}

/// Reading the events of `t` from `i` closes `t` as the result (no element open) or
/// as the last child of the innermost open element.
proof fn lemma_parse_tree(evs: Seq<Event>, i: int, stack: Seq<Node>, t: Node)
    requires
        occurs_at(evs, i, events_of(t)),
    ensures
        stack.len() == 0 ==> parse_from(evs, i, stack) == Ok::<Node, XmlError>(t),
        stack.len() > 0 ==> parse_from(evs, i, stack) == parse_from(
            evs,
            i + events_of(t).len(),
            stack.drop_last().push(with_child(stack.last(), t)),
        ),
    decreases t,
{
    let start = seq![Event::Start { name: t.name, attributes: t.attributes }];
    let tx = text_events(t.text);
    let cs = children_events(t.children);
    let end = seq![Event::End { name: t.name }];
    assert(events_of(t) == start + tx + cs + end);
    lemma_occurs_split(evs, i, start + tx + cs, end);
    lemma_occurs_split(evs, i, start + tx, cs);
    lemma_occurs_split(evs, i, start, tx);
    assert(evs[i] == start[0]);
    let frame0 = Node { name: t.name, attributes: t.attributes, text: None, children: Seq::empty() };
    let frame1 = Node { text: t.text, ..frame0 };
    let j = i + 1 + tx.len();
    assert(parse_from(evs, i, stack) == parse_from(evs, j, stack.push(frame1))) by {
        assert(parse_from(evs, i, stack) == parse_from(evs, i + 1, stack.push(frame0)));
        if let Some(s) = t.text {
            assert(evs[i + 1] == tx[0]);
            assert(stack.push(frame0).drop_last() =~= stack);
            assert(stack.push(frame0).drop_last().push(with_text(frame0, s)) =~= stack.push(frame1));
        }
    }
    lemma_parse_children(evs, j, stack, frame1, t.children);
    let frame2 = Node { children: frame1.children + t.children, ..frame1 };
    assert(frame2.children =~= t.children);
    assert(frame2 == t);
    let k = j + cs.len();
    assert(evs[k] == end[0]);
    assert(stack.push(t).last() == t);
    if stack.len() > 0 {
        assert(stack.push(t).drop_last() =~= stack);
        assert(stack.push(t)[stack.push(t).len() - 2] == stack.last());
    }
}

/// Reading the events of the children `cs` from `i` adds them, in order, to the
/// children of the innermost open element `frame`.
proof fn lemma_parse_children(
    evs: Seq<Event>,
    i: int,
    stack: Seq<Node>,
    frame: Node,
    cs: Seq<Node>,
)
    requires
        occurs_at(evs, i, children_events(cs)),
    ensures
        parse_from(evs, i, stack.push(frame)) == parse_from(
            evs,
            i + children_events(cs).len(),
            stack.push(Node { children: frame.children + cs, ..frame }),
        ),
    decreases cs,
{
    if cs.len() == 0 {
        assert(frame.children + cs =~= frame.children);
        assert(Node { children: frame.children + cs, ..frame } == frame);
    } else {
        let init = cs.drop_last();
        let a = children_events(init);
        let b = events_of(cs.last());
        lemma_occurs_split(evs, i, a, b);
        lemma_parse_children(evs, i, stack, frame, init);
        let frame_a = Node { children: frame.children + init, ..frame };
        lemma_parse_tree(evs, i + a.len(), stack.push(frame_a), cs.last());
        assert(stack.push(frame_a).drop_last() =~= stack);
        assert(frame.children + init + seq![cs.last()] =~= frame.children + cs);
        assert(with_child(frame_a, cs.last()).children =~= frame.children + cs);
    }
}

/// Parsing the events that describe a tree gives back that tree.
pub proof fn lemma_parse_events_of(t: Node)
    ensures
        parse(events_of(t)) == Ok::<Node, XmlError>(t),
{
    lemma_parse_tree(events_of(t), 0, Seq::empty(), t);
}

/// Parsing, writing the result out and parsing again gives what the first parse gave.
pub proof fn lemma_round_trip(events: Seq<Event>)
    requires
        parse(events) is Ok,
    ensures
        parse(events_of(parse(events)->Ok_0)) == parse(events),
{
    lemma_parse_events_of(parse(events)->Ok_0);
}

fn copy_attributes(v: &Vec<XmlAttribute>) -> (r: Vec<XmlAttribute>)
    ensures
        attributes_view(r@) == attributes_view(v@),
{
    let mut r: Vec<XmlAttribute> = Vec::new();
    let mut i: usize = 0;
    while i < v.len()
        invariant
            i <= v.len(),
            attributes_view(r@) =~= attributes_view(v@.take(i as int)),
        decreases v.len() - i,
    {
        let a = XmlAttribute { name: v[i].name.clone(), value: v[i].value.clone() };
        assert(a@ == v@[i as int]@);
        let ghost r0 = r@;
        r.push(a);
        assert(v@.take(i as int + 1) =~= v@.take(i as int).push(v@[i as int]));
        assert(attributes_view(r@) =~= attributes_view(r0).push(a@));
        i += 1;
    }
    assert(v@.take(v.len() as int) =~= v@);
    r
}

impl XmlTag {
    /// Builds the tree from a structural event stream: a start pushes a new element,
    /// text replaces the text of the innermost open element, an end closes it and
    /// adds it as the last child of the element around it. The first element to
    /// close at the outermost level is the result.
    pub fn from_event_reader(events: &[XmlEvent]) -> (r: Result<XmlTag, XmlError>)
        ensures
            tree_result(r) == parse(events_view(events@)),
    {
        let ghost evs = events_view(events@);
        let mut stack: Vec<XmlTag> = Vec::new();
        let mut i: usize = 0;
        while i < events.len()
            invariant
                i <= events.len(),
                evs == events_view(events@),
                parse_from(evs, i as int, nodes_of(stack@)) == parse(evs),
            decreases events.len() - i,
        {
            let ghost before = stack@;
            proof {
                lemma_nodes_of(before);
                assert(evs[i as int] == events@[i as int]@);
            }
            match &events[i] {
                XmlEvent::StartElement { name, attributes } => {
                    let tag = XmlTag {
                        name: name.clone(),
                        attributes: copy_attributes(attributes),
                        text: None,
                        child_tags: Vec::new(),
                    };
                    stack.push(tag);
                    proof {
                        lemma_nodes_of_push(before, tag);
                        assert(tag@.children =~= Seq::<Node>::empty());
                        assert(tag@.attributes == attributes_view(attributes@));
                        assert(parse_from(evs, i as int, nodes_of(before)) == parse_from(evs, i + 1, nodes_of(stack@)));
                    }
                },
                XmlEvent::EndElement { name } => {
                    if stack.len() == 0 {
                        return Err(XmlError::MalformedDocument);
                    }
                    let top = stack.pop().unwrap();
                    proof {
                        assert(before =~= stack@.push(top));
                        lemma_nodes_of_push(stack@, top);
                    }
                    if !(top.name == *name) {
                        return Err(XmlError::MalformedDocument);
                    }
                    if stack.len() == 0 {
                        return Ok(top);
                    }
                    let ghost middle = stack@;
                    let mut parent = stack.pop().unwrap();
                    let ghost old_parent = parent;
                    proof {
                        assert(middle =~= stack@.push(parent));
                        lemma_nodes_of_push(stack@, parent);
                    }
                    parent.child_tags.push(top);
                    proof {
                        lemma_nodes_of_push(old_parent.child_tags@, top);
                    }
                    stack.push(parent);
                    proof {
                        assert(stack@.drop_last().push(parent) =~= stack@);
                        lemma_nodes_of_push(stack@.drop_last(), parent);
                        assert(stack@.drop_last() =~= middle.drop_last());
                        assert(parent@ == with_child(old_parent@, top@));
                        assert(nodes_of(before).drop_last().drop_last() =~= nodes_of(
                            middle.drop_last(),
                        ));
                        assert(parse_from(evs, i as int, nodes_of(before)) == parse_from(evs, i + 1, nodes_of(stack@)));
                    }
                },
                XmlEvent::Characters { text } => {
                    if stack.len() == 0 {
                        return Err(XmlError::MalformedDocument);
                    }
                    let mut top = stack.pop().unwrap();
                    let ghost old_top = top;
                    proof {
                        assert(before =~= stack@.push(top));
                        lemma_nodes_of_push(stack@, top);
                    }
                    top.text = Some(text.clone());
                    stack.push(top);
                    proof {
                        assert(stack@.drop_last().push(top) =~= stack@);
                        lemma_nodes_of_push(stack@.drop_last(), top);
                        assert(stack@.drop_last() =~= before.drop_last());
                        assert(top@ == with_text(old_top@, text@));
                        assert(nodes_of(before).drop_last() =~= nodes_of(before.drop_last()));
                        assert(nodes_of(stack@) =~= nodes_of(before).drop_last().push(with_text(nodes_of(before).last(), text@)));
                        assert(parse_from(evs, i as int, nodes_of(before)) == parse_from(evs, i + 1, nodes_of(stack@)));
                    }
                },
                XmlEvent::Other => {},
                XmlEvent::Failure => {
                    return Err(XmlError::MalformedDocument);
                },
            }
            i += 1;
        }
        Err(XmlError::MalformedDocument)
    }

    /// Appends to `sink` the events that describe `xml_tag`. The walk keeps its own
    /// stack, so deep documents do not deepen the call stack.
    pub fn write_to_event_writer(xml_tag: &XmlTag, sink: &mut Vec<XmlEvent>)
        ensures
            events_view(final(sink)@) == events_view(old(sink)@) + events_of(xml_tag@),
    {
        let ghost goal = events_view(old(sink)@) + events_of(xml_tag@);
        let mut frames: Vec<(&XmlTag, usize)> = Vec::new();
        write_start(xml_tag, sink);
        frames.push((xml_tag, 0));
        proof {
            let n = xml_tag@;
            assert(n.children.skip(0) =~= n.children);
            assert(frames@.last() == (xml_tag, 0usize));
            assert(frames@.drop_last() =~= Seq::<(&XmlTag, usize)>::empty());
            assert(pending_events(Seq::<(&XmlTag, usize)>::empty()) =~= Seq::<Event>::empty());
            assert(events_view(sink@) + pending_events(frames@) =~= goal);
        }
        while frames.len() > 0
            invariant
                forall|k: int|
                    0 <= k < frames@.len() ==> #[trigger] frames@[k].1 <= frames@[k].0@.children.len(),
                events_view(sink@) + pending_events(frames@) == goal,
            decreases pending_size(frames@), frames@.len(),
        {
            let last = frames.len() - 1;
            let (t, i) = frames[last];
            let ghost before = frames@;
            let ghost s0 = events_view(sink@);
            proof {
                lemma_nodes_of(t.child_tags@);
                assert(before.last() == (t, i));
            }
            if i < t.child_tags.len() {
                let c = &t.child_tags[i];
                proof {
                    lemma_events_skip_step(t@.children, i as int);
                    assert(t@.children[i as int] == c@);
                }
                write_start(c, sink);
                frames.pop();
                frames.push((t, i + 1));
                frames.push((c, 0));
                proof {
                    assert(c@.children.skip(0) =~= c@.children);
                    let mid = before.drop_last().push((t, (i + 1) as usize));
                    let rest = before.drop_last();
                    assert(frames@ =~= mid.push((c, 0usize)));
                    assert(frames@.drop_last() =~= mid);
                    assert(mid.drop_last() =~= rest);
                    assert(frames@.last() == (c, 0usize));
                    assert(mid.last() == (t, (i + 1) as usize));
                    let end_c = seq![Event::End { name: c@.name }];
                    let end_t = seq![Event::End { name: t@.name }];
                    assert(pending_events(frames@) == children_events(c@.children) + end_c
                        + pending_events(mid));
                    assert(pending_events(mid) == children_events(t@.children.skip(i + 1)) + end_t
                        + pending_events(rest));
                    assert(pending_events(before) == children_events(t@.children.skip(i as int))
                        + end_t + pending_events(rest));
                    assert(events_of(c@) == head_events(c@) + children_events(c@.children) + end_c);
                    assert(events_view(sink@) + pending_events(frames@) =~= s0 + pending_events(
                        before,
                    ));
                    assert(pending_size(frames@) == sizes(c@.children) + pending_size(mid));
                    assert(pending_size(mid) == sizes(t@.children.skip(i + 1)) + pending_size(rest));
                    assert(pending_size(before) == sizes(t@.children.skip(i as int)) + pending_size(
                        rest,
                    ));
                    assert(size(c@) == 1 + sizes(c@.children));
                    assert forall|k: int| 0 <= k < frames@.len() implies #[trigger] frames@[k].1
                        <= frames@[k].0@.children.len() by {
                        if k < before.len() - 1 {
                            assert(frames@[k] == before[k]);
                        }
                    }
                }
            } else {
                sink.push(XmlEvent::EndElement { name: t.name.clone() });
                frames.pop();
                proof {
                    assert(t@.children.skip(i as int) =~= Seq::<Node>::empty());
                    assert(frames@ =~= before.drop_last());
                    assert(children_events(Seq::<Node>::empty()) =~= Seq::<Event>::empty());
                    assert(sizes(Seq::<Node>::empty()) == 0);
                    assert(pending_size(before) == pending_size(frames@));
                    assert(events_view(sink@) =~= s0.push(Event::End { name: t@.name }));
                    assert(events_view(sink@) + pending_events(frames@) =~= s0 + pending_events(
                        before,
                    ));
                }
            }
        }
        proof {
            assert(events_view(sink@) + pending_events(frames@) =~= events_view(sink@));
        }
    }
}

/// Appends the start of `tag` and its text, if any.
fn write_start(tag: &XmlTag, sink: &mut Vec<XmlEvent>)
    ensures
        events_view(final(sink)@) == events_view(old(sink)@) + head_events(tag@),
{
    sink.push(
        XmlEvent::StartElement { name: tag.name.clone(), attributes: copy_attributes(&tag.attributes) },
    );
    match &tag.text {
        Some(t) => {
            sink.push(XmlEvent::Characters { text: t.clone() });
        },
        None => {},
    }
    assert(events_view(sink@) =~= events_view(old(sink)@) + head_events(tag@));
}

} // verus!
