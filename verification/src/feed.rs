use vstd::prelude::*;

verus! {

/// One attribute of an XML element.
pub struct Attribute {
    pub name: String,
    pub value: String,
}

pub struct AttributeView {
    pub name: Seq<char>,
    pub value: Seq<char>,
}

impl View for Attribute {
    type V = AttributeView;

    open spec fn view(&self) -> AttributeView {
        AttributeView { name: self.name@, value: self.value@ }
    }
}

/// The parse events the feed reader reacts to; anything else is `Other`.
pub enum FeedEvent {
    ElementStart { name: String, attributes: Vec<Attribute> },
    CData { content: String },
    ElementEnd { name: String },
    Other,
}

pub enum FeedEventView {
    ElementStart { name: Seq<char>, attributes: Seq<AttributeView> },
    CData { content: Seq<char> },
    ElementEnd { name: Seq<char> },
    Other,
}

impl View for FeedEvent {
    type V = FeedEventView;

    open spec fn view(&self) -> FeedEventView {
        match self {
            FeedEvent::ElementStart { name, attributes } => FeedEventView::ElementStart {
                name: name@,
                attributes: attributes@.map_values(|a: Attribute| a@),
            },
            FeedEvent::CData { content } => FeedEventView::CData { content: content@ },
            FeedEvent::ElementEnd { name } => FeedEventView::ElementEnd { name: name@ },
            FeedEvent::Other => FeedEventView::Other,
        }
    }
}

/// One podcast episode, as read from an RSS feed item.
pub struct Podcast {
    pub title: String,
    pub description: String,
    pub audio_file: Option<String>,
}

pub struct PodcastView {
    pub title: Seq<char>,
    pub description: Seq<char>,
    pub audio_file: Option<Seq<char>>,
}

impl View for Podcast {
    type V = PodcastView;

    open spec fn view(&self) -> PodcastView {
        PodcastView {
            title: self.title@,
            description: self.description@,
            audio_file: match self.audio_file {
                Some(ref f) => Some(f@),
                None => None,
            },
        }
    }
}

/// Where the reader stands while walking the feed's events.
pub enum ParserState {
    Start,
    InTitle,
    InDescription,
}

/// A podcast with no data yet.
pub open spec fn empty_podcast() -> PodcastView {
    PodcastView { title: Seq::empty(), description: Seq::empty(), audio_file: None }
}

/// The value of the first attribute named "url", if any.
pub open spec fn spec_find_url(attrs: Seq<AttributeView>) -> Option<Seq<char>>
    decreases attrs.len(),
{
    if attrs.len() == 0 {
        None
    } else if attrs[0].name == "url"@ {
        Some(attrs[0].value)
    } else {
        spec_find_url(attrs.drop_first())
    }
}

/// How one parse event changes the reader: a title or description element
/// arms the matching state, CData lands in the armed field, an enclosure
/// records its url attribute, and the end of an item emits the podcast.
pub open spec fn feed_step(
    st: ParserState,
    p: PodcastView,
    acc: Seq<PodcastView>,
    ev: FeedEventView,
) -> (ParserState, PodcastView, Seq<PodcastView>) {
    match ev {
        FeedEventView::ElementStart { name, attributes } => {
            if name == "title"@ {
                (ParserState::InTitle, p, acc)
            } else if name == "description"@ {
                (ParserState::InDescription, p, acc)
            } else if name == "enclosure"@ {
                (
                    st,
                    PodcastView {
                        title: p.title,
                        description: p.description,
                        audio_file: spec_find_url(attributes),
                    },
                    acc,
                )
            } else {
                (st, p, acc)
            }
        },
        FeedEventView::CData { content } => match st {
            ParserState::InTitle => (
                ParserState::Start,
                PodcastView { title: content, description: p.description, audio_file: p.audio_file },
                acc,
            ),
            ParserState::InDescription => (
                ParserState::Start,
                PodcastView { title: p.title, description: content, audio_file: p.audio_file },
                acc,
            ),
            ParserState::Start => (st, p, acc),
        },
        FeedEventView::ElementEnd { name } => {
            if name == "item"@ {
                (ParserState::Start, empty_podcast(), acc.push(p))
            } else {
                (st, p, acc)
            }
        },
        FeedEventView::Other => (st, p, acc),
    }
}

/// The podcasts collected after folding all events, starting from the
/// given reader state.
pub open spec fn feed_fold(
    events: Seq<FeedEventView>,
    st: ParserState,
    p: PodcastView,
    acc: Seq<PodcastView>,
) -> Seq<PodcastView>
    decreases events.len(),
{
    if events.len() == 0 {
        acc
    } else {
        let next = feed_step(st, p, acc, events[0]);
        feed_fold(events.drop_first(), next.0, next.1, next.2)
    }
}

/// The podcasts named by a whole event sequence, read from the start.
pub open spec fn spec_podcasts(events: Seq<FeedEventView>) -> Seq<PodcastView> {
    feed_fold(events, ParserState::Start, empty_podcast(), Seq::empty())
}

/// Whether an element or attribute name equals a fixed tag.
fn is_tag(name: &String, tag: &str) -> (r: bool)
    ensures
        r == (name@ == tag@),
{
    *name == tag.to_owned()
}

impl Podcast {
    /// A podcast with no data yet.
    pub fn new() -> (p: Podcast)
        ensures
            p@ == empty_podcast(),
    {
        Podcast { title: String::new(), description: String::new(), audio_file: None }
    }
}

/// The value of the first attribute named "url", if any.
pub fn find_url_attribute(attrs: &Vec<Attribute>) -> (r: Option<String>)
    ensures
        (match r {
            Some(v) => Some(v@),
            None => None,
        }) == spec_find_url(attrs@.map_values(|a: Attribute| a@)),
{
    let ghost all = attrs@.map_values(|a: Attribute| a@);
    proof {
        assert(all.skip(0) =~= all);
    }
    let mut i: usize = 0;
    while i < attrs.len()
        invariant
            i <= attrs@.len(),
            all == attrs@.map_values(|a: Attribute| a@),
            spec_find_url(all) == spec_find_url(all.skip(i as int)),
        decreases attrs@.len() - i,
    {
        proof {
            assert(all.skip(i as int)[0] == all[i as int]);
            assert(all.skip(i as int).drop_first() =~= all.skip(i as int + 1));
        }
        if is_tag(&attrs[i].name, "url") {
            return Some(attrs[i].value.clone());
        }
        i += 1;
    }
    proof {
        assert(all.skip(attrs@.len() as int).len() == 0);
    }
    None
}

/// Folds a sequence of parse events into the podcasts they describe,
/// exactly as `spec_podcasts` states.
pub fn podcasts_from_events(events: &Vec<FeedEvent>) -> (r: Vec<Podcast>)
    ensures
        r@.map_values(|p: Podcast| p@) == spec_podcasts(
            events@.map_values(|e: FeedEvent| e@),
        ),
{
    let ghost evs = events@.map_values(|e: FeedEvent| e@);
    let mut results: Vec<Podcast> = Vec::new();
    let mut podcast = Podcast::new();
    let mut state = ParserState::Start;
    proof {
        assert(evs.skip(0) =~= evs);
        assert(results@.map_values(|p: Podcast| p@) =~= Seq::<PodcastView>::empty());
    }
    let mut i: usize = 0;
    while i < events.len()
        invariant
            i <= events@.len(),
            evs == events@.map_values(|e: FeedEvent| e@),
            spec_podcasts(evs) == feed_fold(
                evs.skip(i as int),
                state,
                podcast@,
                results@.map_values(|p: Podcast| p@),
            ),
        decreases events@.len() - i,
    {
        proof {
            assert(evs.skip(i as int)[0] == evs[i as int]);
            assert(evs.skip(i as int).drop_first() =~= evs.skip(i as int + 1));
        }
        let ghost st0 = state;
        let ghost p0 = podcast@;
        let ghost acc0 = results@.map_values(|p: Podcast| p@);
        match &events[i] {
            FeedEvent::ElementStart { name, attributes } => {
                if is_tag(name, "title") {
                    state = ParserState::InTitle;
                } else if is_tag(name, "description") {
                    state = ParserState::InDescription;
                } else if is_tag(name, "enclosure") {
                    podcast.audio_file = find_url_attribute(attributes);
                }
            },
            FeedEvent::CData { content } => {
                match state {
                    ParserState::InTitle => {
                        podcast.title = content.clone();
                        state = ParserState::Start;
                    },
                    ParserState::InDescription => {
                        podcast.description = content.clone();
                        state = ParserState::Start;
                    },
                    ParserState::Start => {},
                }
            },
            FeedEvent::ElementEnd { name } => {
                if is_tag(name, "item") {
                    results.push(podcast);
                    podcast = Podcast::new();
                    state = ParserState::Start;
                    proof {
                        assert(results@.map_values(|p: Podcast| p@) =~= acc0.push(p0));
                    }
                }
            },
            FeedEvent::Other => {},
        }
        proof {
            let next = feed_step(st0, p0, acc0, evs[i as int]);
            assert(state == next.0);
            assert(podcast@ == next.1);
            assert(results@.map_values(|p: Podcast| p@) =~= next.2);
        }
        i += 1;
    }
    proof {
        assert(evs.skip(evs.len() as int).len() == 0);
    }
    results
}


impl Podcast {
    /// The HTML page for this podcast: its title in the head and heading,
    /// its description, and its audio file (or a placeholder) in the player.
    pub fn to_html(&self) -> (r: String)
        ensures
            r@ == "\n            <html>\n                <head>\n                    <title>My Podcast: "@
                + self.title@
                + "</title>\n                </head>\n                <body>\n                    <h1>"@
                + self.title@ + "</h1>\n                    <p>"@ + self.description@
                + "</p>\n                    <audio controls src=\""@ + (if self.audio_file is Some {
                self.audio_file->0@
            } else {
                "No file available"@
            }) + "\"></audio>\n                </body>\n            </html>\n                "@,
    {
        let mut r = String::new();
        r.append("\n            <html>\n                <head>\n                    <title>My Podcast: ");
        r.append(self.title.as_str());
        r.append("</title>\n                </head>\n                <body>\n                    <h1>");
        r.append(self.title.as_str());
        r.append("</h1>\n                    <p>");
        r.append(self.description.as_str());
        r.append("</p>\n                    <audio controls src=\"");
        match &self.audio_file {
            Some(file) => r.append(file.as_str()),
            None => r.append("No file available"),
        }
        r.append("\"></audio>\n                </body>\n            </html>\n                ");
        r
    }
}

#[verifier::external_type_specification]
#[verifier::external_body]
pub struct ExOwnedAttribute(xml::attribute::OwnedAttribute);

/// A pull parser over the bytes of a feed's text; opaque to the verifier,
/// read only through `next_feed_event`.
#[verifier::external_body]
struct FeedReader<'a> {
    inner: xml::EventReader<&'a [u8]>,
}

/// Relies on xml's EventReader::new: builds a pull parser over the bytes
/// of the feed text.
#[verifier::external_body]
fn make_reader<'a>(data: &'a str) -> FeedReader<'a> {
    FeedReader { inner: xml::EventReader::new(data.as_bytes()) }
}

/// Carries each attribute's local name and value over into the library's
/// own attribute type, one for one.
#[verifier::external_body]
fn convert_attributes(attrs: Vec<xml::attribute::OwnedAttribute>) -> Vec<Attribute> {
    attrs.into_iter().map(
        |a| Attribute { name: a.name.local_name, value: a.value },
    ).collect()
}

/// Relies on xml's EventReader::next: hands back the next parse event of
/// the document, reshaped into the library's event type; None at the end
/// of the document or on a parse error, after which the reader yields
/// nothing further.
#[verifier::external_body]
fn next_feed_event(reader: &mut FeedReader<'_>) -> Option<FeedEvent> {
    match reader.inner.next() {
        Ok(xml::reader::XmlEvent::StartElement { name, attributes, .. }) => Some(
            FeedEvent::ElementStart {
                name: name.local_name,
                attributes: convert_attributes(attributes),
            },
        ),
        Ok(xml::reader::XmlEvent::CData(content)) => Some(FeedEvent::CData { content }),
        Ok(xml::reader::XmlEvent::EndElement { name }) => Some(
            FeedEvent::ElementEnd { name: name.local_name },
        ),
        Ok(xml::reader::XmlEvent::EndDocument) => None,
        Ok(_) => Some(FeedEvent::Other),
        Err(_) => None,
    }
}

/// Reads the podcasts described by the text of an RSS feed: pulls the
/// XML parse events and folds them as `spec_podcasts` states. Whatever
/// events the parser yields, the result is their fold.
pub fn read_podcasts_from_xml(data: &str) -> (r: Vec<Podcast>)
    ensures
        exists|evs: Seq<FeedEventView>|
            r@.map_values(|p: Podcast| p@) == #[trigger] spec_podcasts(evs),
{
    let mut reader = make_reader(data);
    let mut events: Vec<FeedEvent> = Vec::new();
    let mut fuel: usize = usize::MAX;
    while fuel > 0
        invariant
            true,
        decreases fuel,
    {
        match next_feed_event(&mut reader) {
            Some(ev) => events.push(ev),
            None => { break },
        }
        fuel -= 1;
    }
    let r = podcasts_from_events(&events);
    proof {
        let evs = events@.map_values(|e: FeedEvent| e@);
        assert(r@.map_values(|p: Podcast| p@) == spec_podcasts(evs));
    }
    r
}

} // verus!
