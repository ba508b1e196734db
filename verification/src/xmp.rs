use vstd::prelude::*;
use crate::error::Error;
use quick_xml::events::Event;
use crate::bytes::copy_range;
use crate::tag::{decode_lossy, lemma_tag_views_push, lossy_utf8, tag_views, Tag, TagView};
use crate::xml::{local_part, split_name};

verus! {

/// What the XMP walk sees of an XML event: the raw qualified name of a
/// start or end tag, the raw bytes of a text event, the end of the
/// document, or some other event.
pub enum XmlEvent {
    Start(Vec<u8>),
    End(Vec<u8>),
    Text(Vec<u8>),
    Eof,
    Other,
}

/// An XML event as plain sequences.
pub enum EventView {
    Start(Seq<u8>),
    End(Seq<u8>),
    Text(Seq<u8>),
    Eof,
    Other,
}

impl View for XmlEvent {
    type V = EventView;

    open spec fn view(&self) -> EventView {
        match self {
            XmlEvent::Start(n) => EventView::Start(n@),
            XmlEvent::End(n) => EventView::End(n@),
            XmlEvent::Text(t) => EventView::Text(t@),
            XmlEvent::Eof => EventView::Eof,
            XmlEvent::Other => EventView::Other,
        }
    }
}

/// The views of a sequence of events.
pub open spec fn event_views(evs: Seq<XmlEvent>) -> Seq<EventView> {
    evs.map_values(|e: XmlEvent| e@)
}

/// What `quick_xml` reads from `text` with a reader made by
/// `Reader::from_str` and asked for events one after another: the events up
/// to and including the end of the document, or up to the first error, and
/// whether an error stopped the reading.
pub uninterp spec fn xml_events(text: Seq<char>) -> (Seq<EventView>, bool);

/// Calls `quick_xml::Reader::from_str` on `text`, then `read_event` until
/// the end of the document or the first error, converting each event. The
/// contract claims that the events and the error flag are [`xml_events`] of
/// the text.
#[verifier::external_body]
fn read_events(text: &str) -> (r: (Vec<XmlEvent>, bool))
    ensures
        (event_views(r.0@), r.1) == xml_events(text@),
{
    let (mut reader, mut events) = (quick_xml::Reader::from_str(text), Vec::new());
    loop {
        let event = match reader.read_event() {
            Ok(Event::Start(e)) => XmlEvent::Start(e.name().as_ref().to_vec()),
            Ok(Event::End(e)) => XmlEvent::End(e.name().as_ref().to_vec()),
            Ok(Event::Text(e)) => XmlEvent::Text(e.to_vec()),
            Ok(Event::Eof) => {
                events.push(XmlEvent::Eof);
                return (events, false);
            },
            Ok(_) => XmlEvent::Other,
            Err(_) => return (events, true),
        };
        events.push(event);
    }
}

/// An element still open: its raw qualified name, its local name as text,
/// and whether text inside it is kept.
pub struct Frame {
    pub qname: Vec<u8>,
    pub name: String,
    pub keep: bool,
}

/// An open element as plain values.
pub type FrameView = (Seq<u8>, Seq<char>, bool);

impl View for Frame {
    type V = FrameView;

    open spec fn view(&self) -> FrameView {
        (self.qname@, self.name@, self.keep)
    }
}

/// The views of a stack of open elements.
pub open spec fn frame_views(frames: Seq<Frame>) -> Seq<FrameView> {
    frames.map_values(|f: Frame| f@)
}

/// Whether `b` is an ASCII white-space byte: space, tab, line feed, form
/// feed or carriage return.
pub open spec fn is_ascii_space(b: u8) -> bool {
    b == 0x20 || b == 0x09 || b == 0x0A || b == 0x0C || b == 0x0D
}

/// Whether `t` holds nothing but ASCII white space.
pub open spec fn is_blank(t: Seq<u8>) -> bool {
    forall|i: int| 0 <= i < t.len() ==> is_ascii_space(#[trigger] t[i])
}

/// Whether the text of an element with this local name is left out,
/// together with the text of everything inside it: edit histories,
/// manifests and thumbnails.
pub open spec fn excluded(name: Seq<char>) -> bool {
    name == "History"@ || name == "Manifest"@ || name == "Thumbnails"@
}

/// The element opened by a start tag `qname` inside an element whose text
/// is kept or not.
pub open spec fn opened(parent_keep: bool, qname: Seq<u8>) -> FrameView {
    let name = lossy_utf8(local_part(qname));
    (qname, name, parent_keep && !excluded(name))
}

/// What a step of the walk gives.
#[derive(Debug, Clone, Copy, PartialEq, Eq, Structural)]
pub enum Step {
    /// The walk goes on.
    Continue,
    /// The document ended outside every element.
    Finished,
    /// An end tag that closes no open element, or the end of the document
    /// inside an element.
    Invalid,
}

/// One step of the walk over the events of an XMP packet, from the stack
/// of open elements: the new stack, the tags the event gives, and the step.
/// Outside every element only start tags and the end of the document
/// matter. Inside one, its end tag closes it, any other end tag or the end
/// of the document is invalid, a start tag opens a child, and text that is
/// not blank, in an element whose text is kept, becomes a tag named by the
/// element's local name.
pub open spec fn spec_step(frames: Seq<FrameView>, ev: EventView) -> (Seq<FrameView>, Seq<TagView>, Step) {
    if frames.len() == 0 {
        match ev {
            EventView::Start(q) => (seq![opened(true, q)], Seq::empty(), Step::Continue),
            EventView::Eof => (frames, Seq::empty(), Step::Finished),
            _ => (frames, Seq::empty(), Step::Continue),
        }
    } else {
        let top = frames.last();
        match ev {
            EventView::End(q) => if q == top.0 {
                (frames.drop_last(), Seq::empty(), Step::Continue)
            } else {
                (frames, Seq::empty(), Step::Invalid)
            },
            EventView::Eof => (frames, Seq::empty(), Step::Invalid),
            EventView::Start(q) => (frames.push(opened(top.2, q)), Seq::empty(), Step::Continue),
            EventView::Text(t) => if top.2 && !is_blank(t) {
                (frames, seq![(top.1, lossy_utf8(t))], Step::Continue)
            } else {
                (frames, Seq::empty(), Step::Continue)
            },
            EventView::Other => (frames, Seq::empty(), Step::Continue),
        }
    }
}

/// The walk over the events `evs` from an empty stack: the stack reached,
/// the tags given, and `Step::Continue` where every event was taken without
/// the walk ending, else how and where it ended (later events are not
/// looked at).
pub open spec fn run(evs: Seq<EventView>) -> (Seq<FrameView>, Seq<TagView>, Step)
    decreases evs.len(),
{
    if evs.len() == 0 {
        (Seq::empty(), Seq::empty(), Step::Continue)
    } else {
        let before = run(evs.drop_last());
        if before.2 == Step::Continue {
            let (frames, tags, step) = spec_step(before.0, evs.last());
            (frames, before.1 + tags, step)
        } else {
            before
        }
    }
}

/// Whether `t` holds a byte other than ASCII white space.
fn has_content(t: &[u8]) -> (r: bool)
    ensures
        r == !is_blank(t@),
{
    let mut i: usize = 0;
    while i < t.len()
        invariant
            i <= t@.len(),
            forall|j: int| 0 <= j < i ==> is_ascii_space(#[trigger] t@[j]),
        decreases t@.len() - i,
    {
        let b = t[i];
        if !(b == 0x20 || b == 0x09 || b == 0x0A || b == 0x0C || b == 0x0D) {
            return true;
        }
        i = i + 1;
    }
    false
}

/// Whether the local name `name` is one whose text is left out.
fn is_excluded(name: &String) -> (r: bool)
    ensures
        r == excluded(name@),
{
    let history = "History".to_owned();
    let manifest = "Manifest".to_owned();
    let thumbnails = "Thumbnails".to_owned();
    *name == history || *name == manifest || *name == thumbnails
}

/// Whether two byte slices are equal.
fn same_bytes(a: &[u8], b: &[u8]) -> (r: bool)
    ensures
        r == (a@ == b@),
{
    if a.len() != b.len() {
        return false;
    }
    let mut i: usize = 0;
    while i < a.len()
        invariant
            a@.len() == b@.len(),
            i <= a@.len(),
            forall|j: int| 0 <= j < i ==> a@[j] == b@[j],
        decreases a@.len() - i,
    {
        if a[i] != b[i] {
            return false;
        }
        i = i + 1;
    }
    assert(a@ =~= b@);
    true
}

/// The walk over the events of an XMP packet, as a stack of open elements.
pub struct XmpWalk {
    frames: Vec<Frame>,
}

impl View for XmpWalk {
    type V = Seq<FrameView>;

    closed spec fn view(&self) -> Seq<FrameView> {
        frame_views(self.frames@)
    }
}

impl XmpWalk {
    /// A walk that has seen no event.
    pub fn new() -> (w: XmpWalk)
        ensures
            w@ == Seq::<FrameView>::empty(),
    {
        let w = XmpWalk { frames: Vec::new() };
        assert(w@ =~= Seq::<FrameView>::empty());
        w
    }

    /// Opens the element of the start tag `qname`.
    fn open(&mut self, qname: &[u8], parent_keep: bool)
        ensures
            final(self)@ == old(self)@.push(opened(parent_keep, qname@)),
    {
        let (local, _) = split_name(qname);
        let name = decode_lossy(local);
        let keep = parent_keep && !is_excluded(&name);
        let ghost before = self.frames@;
        let frame = Frame { qname: copy_range(qname, 0, qname.len()), name, keep };
        assert(qname@.subrange(0, qname@.len() as int) =~= qname@);
        assert(frame@ == opened(parent_keep, qname@));
        self.frames.push(frame);
        assert(frame_views(self.frames@) =~= frame_views(before).push(frame@));
    }

    /// Takes one event: updates the stack of open elements, appends the tag
    /// the event gives to `metadata`, and says whether the walk goes on.
    pub fn step(&mut self, event: &XmlEvent, metadata: &mut Vec<Tag>) -> (s: Step)
        ensures
            final(self)@ == spec_step(old(self)@, event@).0,
            tag_views(final(metadata)@) == tag_views(old(metadata)@) + spec_step(
                old(self)@,
                event@,
            ).1,
            s == spec_step(old(self)@, event@).2,
    {
        let ghost frames = self@;
        let ghost tags = metadata@;
        assert(tag_views(tags) + Seq::<TagView>::empty() =~= tag_views(tags));
        let n = self.frames.len();
        if n == 0 {
            match event {
                XmlEvent::Start(q) => {
                    self.open(q.as_slice(), true);
                    assert(self@ =~= seq![opened(true, q@)]);
                    Step::Continue
                },
                XmlEvent::Eof => Step::Finished,
                _ => Step::Continue,
            }
        } else {
            assert(frames.last() == self.frames@[n - 1]@);
            match event {
                XmlEvent::End(q) => {
                    if same_bytes(q.as_slice(), self.frames[n - 1].qname.as_slice()) {
                        let _ = self.frames.pop();
                        assert(self@ =~= frames.drop_last());
                        Step::Continue
                    } else {
                        Step::Invalid
                    }
                },
                XmlEvent::Eof => Step::Invalid,
                XmlEvent::Start(q) => {
                    let keep = self.frames[n - 1].keep;
                    self.open(q.as_slice(), keep);
                    Step::Continue
                },
                XmlEvent::Text(t) => {
                    if self.frames[n - 1].keep && has_content(t.as_slice()) {
                        let name = self.frames[n - 1].name.clone();
                        let value = decode_lossy(t.as_slice());
                        let tag = Tag { name, value };
                        metadata.push(tag);
                        proof {
                            lemma_tag_views_push(tags, tag);
                            assert(tag_views(tags).push(tag@) =~= tag_views(tags) + seq![tag@]);
                        }
                    }
                    Step::Continue
                },
                XmlEvent::Other => Step::Continue,
            }
        }
    }
}

/// The walk over a prefix of events stops where the walk over the whole
/// sequence stops, once the prefix has ended it.
proof fn lemma_run_stays_ended(evs: Seq<EventView>, k: int, m: int)
    requires
        0 <= k <= m <= evs.len(),
        run(evs.take(k)).2 != Step::Continue,
    ensures
        run(evs.take(m)) == run(evs.take(k)),
    decreases m - k,
{
    if m > k {
        lemma_run_stays_ended(evs, k, m - 1);
        assert(evs.take(m).drop_last() =~= evs.take(m - 1));
    }
}

/// What reading the XMP packet `data` comes to: the walk [`run`] over the
/// events that `quick_xml` reads from the packet decoded as UTF-8 (invalid
/// sequences replaced).
pub open spec fn spec_get(data: Seq<u8>) -> (Seq<FrameView>, Seq<TagView>, Step) {
    run(xml_events(lossy_utf8(data)).0)
}

/// Walks the events `events` of an XMP document into `metadata`: the tags
/// appended and the result are those of the walk [`run`] over them: `Ok`
/// where the document ended outside every element, `Error::Metadata` where
/// the walk found an unmatched end tag or an early end, `Error::Xml` where
/// the events ran out before the walk ended.
pub fn walk_events(events: &[XmlEvent], metadata: &mut Vec<Tag>) -> (r: Result<(), Error>)
    ensures
        tag_views(final(metadata)@) == tag_views(old(metadata)@) + run(event_views(events@)).1,
        r is Ok <==> run(event_views(events@)).2 == Step::Finished,
        r == Err::<(), Error>(Error::Metadata) <==> run(event_views(events@)).2 == Step::Invalid,
        r == Err::<(), Error>(Error::Xml) <==> run(event_views(events@)).2 == Step::Continue,
{
    let ghost evs = event_views(events@);
    let mut walk = XmpWalk::new();
    let ghost start = metadata@;
    let mut i: usize = 0;
    assert(evs.take(0) =~= Seq::<EventView>::empty());
    assert(tag_views(start) + Seq::<TagView>::empty() =~= tag_views(start));
    while i < events.len()
        invariant
            evs == event_views(events@),
            i <= events@.len(),
            run(evs.take(i as int)).0 == walk@,
            run(evs.take(i as int)).2 == Step::Continue,
            tag_views(metadata@) == tag_views(start) + run(evs.take(i as int)).1,
            start == old(metadata)@,
        decreases events@.len() - i,
    {
        let ghost prior = run(evs.take(i as int));
        let ghost seen = evs[i as int];
        assert(events@[i as int]@ == seen);
        let step = walk.step(&events[i], metadata);
        proof {
            let next = evs.take(i + 1);
            assert(next.drop_last() =~= evs.take(i as int));
            assert(next.last() == seen);
            assert(tag_views(start) + (prior.1 + spec_step(prior.0, seen).1) =~= tag_views(
                start,
            ) + prior.1 + spec_step(prior.0, seen).1);
        }
        match step {
            Step::Continue => {},
            Step::Finished => {
                proof {
                    lemma_run_stays_ended(evs, i + 1, evs.len() as int);
                    assert(evs.take(evs.len() as int) =~= evs);
                }
                return Ok(());
            },
            Step::Invalid => {
                proof {
                    lemma_run_stays_ended(evs, i + 1, evs.len() as int);
                    assert(evs.take(evs.len() as int) =~= evs);
                }
                return Err(Error::Metadata);
            },
        }
        i = i + 1;
    }
    assert(evs.take(i as int) =~= evs);
    Err(Error::Xml)
}

/// Reads the XMP packet `data` (decoded as UTF-8, invalid sequences
/// replaced) into `metadata`: the non-blank text of each element becomes a
/// tag named by the element's local name, except inside edit histories,
/// manifests and thumbnails. The events are those `quick_xml` reads from the
/// text ([`xml_events`]); the tags appended and the result are those of
/// [`walk_events`] over them: `Ok` where the document ended outside every
/// element, `Error::Metadata` where the walk found an unmatched end tag or an
/// early end, `Error::Xml` where the reader failed before the walk ended.
pub fn get(data: &[u8], metadata: &mut Vec<Tag>) -> (r: Result<(), Error>)
    ensures
        tag_views(final(metadata)@) == tag_views(old(metadata)@) + spec_get(data@).1,
        r is Ok <==> spec_get(data@).2 == Step::Finished,
        r == Err::<(), Error>(Error::Metadata) <==> spec_get(data@).2 == Step::Invalid,
        r == Err::<(), Error>(Error::Xml) <==> spec_get(data@).2 == Step::Continue,
{
    let text = decode_lossy(data);
    let (events, _) = read_events(text.as_str());
    walk_events(events.as_slice(), metadata)
}

/// Whether each open element keeps its text exactly where neither it nor
/// any element around it is excluded.
pub open spec fn keep_flags_exact(frames: Seq<FrameView>) -> bool {
    forall|i: int|
        0 <= i < frames.len() ==> (#[trigger] frames[i].2 <==> (forall|j: int|
            0 <= j <= i ==> !excluded(#[trigger] frames[j].1)))
}

/// A step keeps the keep flags exact.
proof fn lemma_step_keeps_flags(frames: Seq<FrameView>, ev: EventView)
    requires
        keep_flags_exact(frames),
    ensures
        keep_flags_exact(spec_step(frames, ev).0),
{
    let next = spec_step(frames, ev).0;
    if frames.len() > 0 {
        match ev {
            EventView::Start(q) => {
                let f = opened(frames.last().2, q);
                assert(next == frames.push(f));
                assert forall|i: int| 0 <= i < next.len() implies (#[trigger] next[i].2 <==> (
                forall|j: int| 0 <= j <= i ==> !excluded(#[trigger] next[j].1))) by {
                    if i < frames.len() {
                        assert(next[i] == frames[i]);
                        assert forall|j: int| 0 <= j <= i implies next[j] == frames[j] by {}
                    } else {
                        let k = frames.len() - 1;
                        assert(frames[k].2 == frames.last().2);
                        assert(i == k + 1);
                        assert(next[i] == f);
                        if next[i].2 {
                            assert(frames[k].2);
                            assert forall|j: int| 0 <= j <= i implies !excluded(
                                #[trigger] next[j].1,
                            ) by {
                                if j <= k {
                                    assert(next[j] == frames[j]);
                                }
                            }
                        }
                        if forall|j: int| 0 <= j <= i ==> !excluded(#[trigger] next[j].1) {
                            assert forall|j: int| 0 <= j <= k implies !excluded(
                                #[trigger] frames[j].1,
                            ) by {
                                assert(next[j] == frames[j]);
                                assert(!excluded(next[j].1));
                            }
                            assert(frames[k].2);
                            assert(!excluded(next[i].1));
                        }
                    }
                }
            },
            EventView::End(q) => {
                if q == frames.last().0 {
                    assert(next == frames.drop_last());
                    assert forall|i: int| 0 <= i < next.len() implies (#[trigger] next[i].2 <==> (
                    forall|j: int| 0 <= j <= i ==> !excluded(#[trigger] next[j].1))) by {
                        assert(next[i] == frames[i]);
                        assert forall|j: int| 0 <= j <= i implies next[j] == frames[j] by {}
                    }
                }
            },
            _ => {},
        }
    } else {
        match ev {
            EventView::Start(q) => {
                assert(next =~= seq![opened(true, q)]);
                assert forall|i: int| 0 <= i < next.len() implies (#[trigger] next[i].2 <==> (
                forall|j: int| 0 <= j <= i ==> !excluded(#[trigger] next[j].1))) by {
                    assert(i == 0);
                    if forall|j: int| 0 <= j <= i ==> !excluded(#[trigger] next[j].1) {
                        assert(!excluded(next[0].1));
                    }
                }
            },
            _ => {},
        }
    }
}

/// Every stack the walk reaches has exact keep flags.
proof fn lemma_run_keeps_flags(evs: Seq<EventView>)
    ensures
        keep_flags_exact(run(evs).0),
    decreases evs.len(),
{
    if evs.len() > 0 {
        lemma_run_keeps_flags(evs.drop_last());
        let before = run(evs.drop_last());
        if before.2 == Step::Continue {
            lemma_step_keeps_flags(before.0, evs.last());
        }
    }
}

/// Text inside an edit history, a manifest or thumbnails never becomes a
/// tag: wherever the walk over any events stands, while an element with
/// such a local name is open, the next event gives no tag.
pub proof fn law_no_tags_inside_excluded(evs: Seq<EventView>, ev: EventView, i: int)
    requires
        0 <= i < run(evs).0.len(),
        excluded(run(evs).0[i].1),
    ensures
        spec_step(run(evs).0, ev).1 == Seq::<TagView>::empty(),
{
    let frames = run(evs).0;
    lemma_run_keeps_flags(evs);
    let k = frames.len() - 1;
    assert(!frames[k].2) by {
        assert(!(forall|j: int| 0 <= j <= k ==> !excluded(#[trigger] frames[j].1)));
    }
    assert(frames.last() == frames[k]);
}

/// The walk over the events `evs` from the stack `frames`, taken from the
/// front: the stack reached, the tags given, and how the walk stands
/// (later events are not looked at once it has ended).
pub open spec fn walk(frames: Seq<FrameView>, evs: Seq<EventView>) -> (Seq<FrameView>, Seq<TagView>, Step)
    decreases evs.len(),
{
    if evs.len() == 0 {
        (frames, Seq::empty(), Step::Continue)
    } else {
        let (f, t, s) = spec_step(frames, evs[0]);
        if s == Step::Continue {
            let (f2, t2, s2) = walk(f, evs.drop_first());
            (f2, t + t2, s2)
        } else {
            (f, t, s)
        }
    }
}

/// Walking `a` then `b` is walking `a + b`.
proof fn lemma_walk_concat(frames: Seq<FrameView>, a: Seq<EventView>, b: Seq<EventView>)
    ensures
        walk(frames, a + b) == ({
            let (f1, t1, s1) = walk(frames, a);
            if s1 == Step::Continue {
                let (f2, t2, s2) = walk(f1, b);
                (f2, t1 + t2, s2)
            } else {
                (f1, t1, s1)
            }
        }),
    decreases a.len(),
{
    if a.len() == 0 {
        assert(a + b =~= b);
        assert(Seq::<TagView>::empty() + walk(frames, b).1 =~= walk(frames, b).1);
    } else {
        let (f, t, s) = spec_step(frames, a[0]);
        assert((a + b)[0] == a[0]);
        assert((a + b).drop_first() =~= a.drop_first() + b);
        if s == Step::Continue {
            lemma_walk_concat(f, a.drop_first(), b);
            let (f1, t1, s1) = walk(f, a.drop_first());
            if s1 == Step::Continue {
                let t2 = walk(f1, b).1;
                assert(t + (t1 + t2) =~= (t + t1) + t2);
            }
        }
    }
}

/// The walk from an empty stack, taken from the front, is [`run`].
proof fn lemma_run_is_walk(evs: Seq<EventView>)
    ensures
        run(evs) == walk(Seq::empty(), evs),
    decreases evs.len(),
{
    if evs.len() > 0 {
        let front = evs.drop_last();
        lemma_run_is_walk(front);
        lemma_walk_concat(Seq::empty(), front, seq![evs.last()]);
        assert(front + seq![evs.last()] =~= evs);
        let w = walk(Seq::empty(), front);
        if w.2 == Step::Continue {
            let (f, t, s) = spec_step(w.0, evs.last());
            let one = seq![evs.last()];
            assert(one[0] == evs.last());
            assert(one.drop_first() =~= Seq::<EventView>::empty());
            assert(walk(f, one.drop_first()) == (f, Seq::<TagView>::empty(), Step::Continue));
            assert(t + Seq::<TagView>::empty() =~= t);
            assert(walk(w.0, one) == (f, t, s));
        }
    }
}

/// An XML node as the walk reads it: an element with its raw qualified
/// name and its children, a text, or anything else (a comment, a processing
/// instruction, an empty-element tag and the like).
pub enum XmlNode {
    Element(Seq<u8>, Seq<XmlNode>),
    Text(Seq<u8>),
    Other,
}

/// The events `quick_xml` gives for a node: for an element, its start tag,
/// the events of its children and its end tag.
pub open spec fn node_events(node: XmlNode) -> Seq<EventView>
    decreases node,
{
    match node {
        XmlNode::Element(q, kids) => seq![EventView::Start(q)] + nodes_events(kids) + seq![
            EventView::End(q),
        ],
        XmlNode::Text(t) => seq![EventView::Text(t)],
        XmlNode::Other => seq![EventView::Other],
    }
}

/// The events of a sequence of nodes, one after another.
pub open spec fn nodes_events(nodes: Seq<XmlNode>) -> Seq<EventView>
    decreases nodes,
{
    if nodes.len() == 0 {
        Seq::empty()
    } else {
        node_events(nodes[0]) + nodes_events(nodes.subrange(1, nodes.len() as int))
    }
}

/// The element directly holding a node, as its local name and whether its
/// text is kept; `None` outside every element.
pub type Holder = Option<(Seq<char>, bool)>;

/// The holder of whatever the walk reads next from the stack `frames`.
pub open spec fn holder_of(frames: Seq<FrameView>) -> Holder {
    if frames.len() == 0 {
        None
    } else {
        Some((frames.last().1, frames.last().2))
    }
}

/// The tags of a node held by `holder`: a text that is not blank, held by
/// an element whose text is kept, gives a tag named by that element's local
/// name; an element gives the tags of its children, whose text is kept
/// where it is kept around the element and the element is not excluded.
pub open spec fn node_tags(node: XmlNode, holder: Holder) -> Seq<TagView>
    decreases node,
{
    match node {
        XmlNode::Element(q, kids) => {
            let parent_keep = match holder {
                Some(h) => h.1,
                None => true,
            };
            let f = opened(parent_keep, q);
            nodes_tags(kids, Some((f.1, f.2)))
        },
        XmlNode::Text(t) => match holder {
            Some(h) => if h.1 && !is_blank(t) {
                seq![(h.0, lossy_utf8(t))]
            } else {
                Seq::empty()
            },
            None => Seq::empty(),
        },
        XmlNode::Other => Seq::empty(),
    }
}

/// The tags of a sequence of nodes held by `holder`, in document order.
pub open spec fn nodes_tags(nodes: Seq<XmlNode>, holder: Holder) -> Seq<TagView>
    decreases nodes,
{
    if nodes.len() == 0 {
        Seq::empty()
    } else {
        node_tags(nodes[0], holder) + nodes_tags(nodes.subrange(1, nodes.len() as int), holder)
    }
}

/// Walking one event is one step.
proof fn lemma_walk_one(frames: Seq<FrameView>, ev: EventView)
    ensures
        walk(frames, seq![ev]) == spec_step(frames, ev),
{
    let one = seq![ev];
    let (f, t, s) = spec_step(frames, ev);
    assert(one[0] == ev);
    assert(one.drop_first() =~= Seq::<EventView>::empty());
    assert(walk(f, one.drop_first()) == (f, Seq::<TagView>::empty(), Step::Continue));
    assert(t + Seq::<TagView>::empty() =~= t);
}

/// Walking the events of a node gives its tags and comes back to the stack
/// it started from.
proof fn lemma_node_walk(frames: Seq<FrameView>, node: XmlNode)
    ensures
        walk(frames, node_events(node)) == (frames, node_tags(node, holder_of(frames)), Step::Continue),
    decreases node,
{
    match node {
        XmlNode::Element(q, kids) => {
            let parent_keep = if frames.len() == 0 {
                true
            } else {
                frames.last().2
            };
            let f = opened(parent_keep, q);
            let inner = frames.push(f);
            let start = seq![EventView::Start(q)];
            let mid = nodes_events(kids);
            let end = seq![EventView::End(q)];
            lemma_walk_one(frames, EventView::Start(q));
            if frames.len() == 0 {
                assert(seq![f] =~= inner);
            }
            assert(walk(frames, start) == (inner, Seq::<TagView>::empty(), Step::Continue));
            assert(holder_of(inner) == Some((f.1, f.2)));
            lemma_nodes_walk(inner, kids);
            lemma_walk_one(inner, EventView::End(q));
            assert(inner.last().0 == q);
            assert(inner.drop_last() =~= frames);
            lemma_walk_concat(frames, start, mid);
            lemma_walk_concat(frames, start + mid, end);
            let tags = nodes_tags(kids, Some((f.1, f.2)));
            assert(Seq::<TagView>::empty() + tags + Seq::<TagView>::empty() =~= tags);
        },
        XmlNode::Text(t) => {
            lemma_walk_one(frames, EventView::Text(t));
        },
        XmlNode::Other => {
            lemma_walk_one(frames, EventView::Other);
        },
    }
}

/// Walking the events of a sequence of nodes gives their tags in document
/// order and comes back to the stack it started from.
proof fn lemma_nodes_walk(frames: Seq<FrameView>, nodes: Seq<XmlNode>)
    ensures
        walk(frames, nodes_events(nodes)) == (frames, nodes_tags(nodes, holder_of(frames)), Step::Continue),
    decreases nodes,
{
    if nodes.len() > 0 {
        let rest = nodes.subrange(1, nodes.len() as int);
        lemma_node_walk(frames, nodes[0]);
        lemma_nodes_walk(frames, rest);
        lemma_walk_concat(frames, node_events(nodes[0]), nodes_events(rest));
    }
}

/// A node is read whole: wherever the walk stands, the events of a node
/// followed by any events give the node's tags (for an element, the text
/// that is not blank of every text node inside it, in document order,
/// where neither the element holding the text nor any element around it is
/// an edit history, a manifest or thumbnails), and the walk then goes on
/// over the later events from the stack it stood at before the node.
pub proof fn law_node_read_whole(frames: Seq<FrameView>, node: XmlNode, rest: Seq<EventView>)
    ensures
        walk(frames, node_events(node) + rest) == (
            walk(frames, rest).0,
            node_tags(node, holder_of(frames)) + walk(frames, rest).1,
            walk(frames, rest).2,
        ),
{
    lemma_node_walk(frames, node);
    lemma_walk_concat(frames, node_events(node), rest);
}

/// A document of whole nodes is read whole: where `quick_xml` reads from
/// the decoded packet the events of a sequence of nodes and then the end of
/// the document, reading the packet finishes and gives the tags of those
/// nodes in document order (text outside every element gives none).
pub proof fn law_whole_document(data: Seq<u8>, nodes: Seq<XmlNode>)
    requires
        xml_events(lossy_utf8(data)).0 == nodes_events(nodes).push(EventView::Eof),
    ensures
        spec_get(data).1 == nodes_tags(nodes, None),
        spec_get(data).2 == Step::Finished,
{
    let evs = nodes_events(nodes);
    let empty = Seq::<FrameView>::empty();
    lemma_run_is_walk(evs.push(EventView::Eof));
    assert(evs.push(EventView::Eof) =~= evs + seq![EventView::Eof]);
    lemma_nodes_walk(empty, nodes);
    lemma_walk_concat(empty, evs, seq![EventView::Eof]);
    lemma_walk_one(empty, EventView::Eof);
    let tags = nodes_tags(nodes, None);
    assert(tags + Seq::<TagView>::empty() =~= tags);
}

/// A node held by an element whose text is not kept gives no tag.
proof fn lemma_node_hidden(node: XmlNode, name: Seq<char>)
    ensures
        node_tags(node, Some((name, false))) == Seq::<TagView>::empty(),
    decreases node,
{
    if let XmlNode::Element(q, kids) = node {
        let f = opened(false, q);
        lemma_nodes_hidden(kids, f.1);
    }
}

/// Nodes held by an element whose text is not kept give no tag.
proof fn lemma_nodes_hidden(nodes: Seq<XmlNode>, name: Seq<char>)
    ensures
        nodes_tags(nodes, Some((name, false))) == Seq::<TagView>::empty(),
    decreases nodes,
{
    if nodes.len() > 0 {
        lemma_node_hidden(nodes[0], name);
        lemma_nodes_hidden(nodes.subrange(1, nodes.len() as int), name);
        assert(Seq::<TagView>::empty() + Seq::<TagView>::empty() =~= Seq::<TagView>::empty());
    }
}

/// Nothing inside an element whose text is not kept is reported: an
/// element held by an element whose text is not kept, or whose own local
/// name is `History`, `Manifest` or `Thumbnails`, gives no tag for any text
/// anywhere inside it.
pub proof fn law_hidden_element_gives_no_tags(q: Seq<u8>, kids: Seq<XmlNode>, holder: Holder)
    requires
        (holder matches Some(h) && !h.1) || excluded(lossy_utf8(local_part(q))),
    ensures
        node_tags(XmlNode::Element(q, kids), holder) == Seq::<TagView>::empty(),
{
    let parent_keep = match holder {
        Some(h) => h.1,
        None => true,
    };
    let f = opened(parent_keep, q);
    assert(!f.2);
    lemma_nodes_hidden(kids, f.1);
}

/// Only edit histories, manifests and thumbnails hide text: an element
/// whose local name is none of `History`, `Manifest` and `Thumbnails`, at
/// top level or held by an element whose text is kept, gives for a text
/// child holding a byte other than ASCII white space the tag named by its
/// local name with that text as value.
pub proof fn law_other_elements_keep_text(q: Seq<u8>, t: Seq<u8>, holder: Holder)
    requires
        lossy_utf8(local_part(q)) != "History"@,
        lossy_utf8(local_part(q)) != "Manifest"@,
        lossy_utf8(local_part(q)) != "Thumbnails"@,
        holder matches Some(h) ==> h.1,
        exists|i: int|
            0 <= i < t.len() && !(#[trigger] t[i] == 0x20u8 || t[i] == 0x09u8 || t[i] == 0x0Au8
                || t[i] == 0x0Cu8 || t[i] == 0x0Du8),
    ensures
        node_tags(XmlNode::Element(q, seq![XmlNode::Text(t)]), holder) == seq![
            (lossy_utf8(local_part(q)), lossy_utf8(t)),
        ],
{
    let name = lossy_utf8(local_part(q));
    let parent_keep = match holder {
        Some(h) => h.1,
        None => true,
    };
    let f = opened(parent_keep, q);
    assert(f.2);
    let kids = seq![XmlNode::Text(t)];
    let i = choose|i: int|
        0 <= i < t.len() && !(#[trigger] t[i] == 0x20u8 || t[i] == 0x09u8 || t[i] == 0x0Au8
            || t[i] == 0x0Cu8 || t[i] == 0x0Du8);
    assert(!is_ascii_space(t[i]));
    assert(!is_blank(t));
    assert(kids[0] == XmlNode::Text(t));
    assert(kids.subrange(1, 1) =~= Seq::<XmlNode>::empty());
    assert(nodes_tags(kids.subrange(1, 1), Some((f.1, f.2))) == Seq::<TagView>::empty());
    assert(node_tags(kids[0], Some((f.1, f.2))) == seq![(name, lossy_utf8(t))]);
    assert(seq![(name, lossy_utf8(t))] + Seq::<TagView>::empty() =~= seq![(name, lossy_utf8(t))]);
}

} // verus!
