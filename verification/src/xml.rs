//! Reading XML, and the text of a word processor's document.
use crate::text::{same_text, text_outcome};
use quick_xml::events::Event;
use vstd::prelude::*;

verus! {

/// One piece of an XML document.
#[derive(Debug, PartialEq, Eq)]
pub enum XmlEvent {
    /// A start tag, by its local name.
    Start(String),
    /// A tag of an element without content, by its local name.
    Empty(String),
    /// An end tag, by its local name.
    End(String),
    /// Characters between tags, as they are written.
    Text(String),
    /// A reference, by what stands between the ampersand and the semicolon.
    Reference(String),
    /// Anything else.
    Other,
}

/// The content of one piece of an XML document.
pub enum XmlEventModel {
    Start(Seq<char>),
    Empty(Seq<char>),
    End(Seq<char>),
    Text(Seq<char>),
    Reference(Seq<char>),
    Other,
}

impl View for XmlEvent {
    type V = XmlEventModel;

    open spec fn view(&self) -> XmlEventModel {
        match self {
            XmlEvent::Start(name) => XmlEventModel::Start(name@),
            XmlEvent::Empty(name) => XmlEventModel::Empty(name@),
            XmlEvent::End(name) => XmlEventModel::End(name@),
            XmlEvent::Text(text) => XmlEventModel::Text(text@),
            XmlEvent::Reference(name) => XmlEventModel::Reference(name@),
            XmlEvent::Other => XmlEventModel::Other,
        }
    }
}

/// The pieces of a text read as XML, and why the reading stops: at the end of the
/// text, or with a complaint.
pub struct XmlPieces {
    pub events: Seq<XmlEventModel>,
    pub complaint: Option<Seq<char>>,
}

impl XmlPieces {
    /// What is left after the first piece.
    pub open spec fn rest(self) -> XmlPieces {
        XmlPieces { events: self.events.skip(1), complaint: self.complaint }
    }
}

/// What comes next in an XML document.
#[derive(Debug)]
pub enum XmlStep {
    Event(XmlEvent),
    End,
    Complaint(String),
}

impl XmlStep {
    /// Whether this is what comes next of the pieces.
    pub open spec fn is_next_of(self, pieces: XmlPieces) -> bool {
        match self {
            XmlStep::Event(event) => pieces.events.len() > 0 && event@ == pieces.events[0],
            XmlStep::End => pieces.events.len() == 0 && pieces.complaint is None,
            XmlStep::Complaint(message) => pieces.events.len() == 0 && pieces.complaint == Some(
                message@,
            ),
        }
    }
}

/// `quick_xml::Reader`, which reads XML piece by piece.
#[verifier::external_type_specification]
#[verifier::external_body]
#[verifier::reject_recursive_types(R)]
pub struct ExReader<R>(quick_xml::Reader<R>);

/// What a reader has still to give.
pub uninterp spec fn unread(reader: quick_xml::Reader<&[u8]>) -> XmlPieces;

/// What `quick_xml` makes of a text.
pub uninterp spec fn xml_pieces(text: Seq<char>) -> XmlPieces;

/// `quick_xml::Reader::from_str` gives a reader of the text from its beginning.
#[verifier::external_body]
pub(crate) fn reader_of(text: &str) -> (reader: quick_xml::Reader<&[u8]>)
    ensures
        unread(reader) == xml_pieces(text@),
{
    quick_xml::Reader::from_str(text)
}

/// `quick_xml::Reader::read_event` gives the next piece, with the local name of its
/// tag where it is a tag. Once there is none left it says so, or why it cannot go on.
#[verifier::external_body]
pub(crate) fn next_piece(reader: &mut quick_xml::Reader<&[u8]>) -> (step: XmlStep)
    ensures
        step.is_next_of(unread(*old(reader))),
        step is Event ==> unread(*final(reader)) == unread(*old(reader)).rest(),
{
    let event = match reader.read_event() {
        Ok(event) => event,
        Err(error) => return XmlStep::Complaint(error.to_string()),
    };
    XmlStep::Event(match event {
        Event::Start(tag) => XmlEvent::Start(tag.local_name().as_ref().to_owned()),
        Event::Empty(tag) => XmlEvent::Empty(tag.local_name().as_ref().to_owned()),
        Event::End(tag) => XmlEvent::End(tag.local_name().as_ref().to_owned()),
        Event::Text(text) => XmlEvent::Text(text.as_ref().to_owned()),
        Event::GeneralRef(name) => XmlEvent::Reference(name.as_ref().to_owned()),
        Event::Eof => return XmlStep::End,
        _ => XmlEvent::Other,
    })
}

/// A start tag.
#[derive(Debug)]
pub struct XmlTag {
    /// The local name.
    pub name: String,
    /// What follows the name, as it is written.
    pub attributes: String,
}

/// The content of a start tag.
pub struct TagModel {
    pub name: Seq<char>,
    pub attributes: Seq<char>,
}

impl View for XmlTag {
    type V = TagModel;

    open spec fn view(&self) -> TagModel {
        TagModel { name: self.name@, attributes: self.attributes@ }
    }
}

/// The content of a start tag, if there is one.
pub open spec fn optional_tag(tag: Option<XmlTag>) -> Option<TagModel> {
    match tag {
        Some(tag) => Some(tag@),
        None => None,
    }
}

/// The pieces that a reader has still to give before it ends or complains: the start tags,
/// and nothing for each other piece.
pub uninterp spec fn unread_tags(reader: quick_xml::Reader<&[u8]>) -> Seq<Option<TagModel>>;

/// The pieces that `quick_xml` finds in the bytes of a part of a workbook before their end
/// or its first complaint: the start tags, and nothing for each other piece.
pub uninterp spec fn part_tags(bytes: Seq<u8>) -> Seq<Option<TagModel>>;

/// `quick_xml::Reader::from_reader` gives a reader of bytes from their beginning. It is set
/// as `calamine` sets its readers: end tags are not compared with start tags, and an
/// element without content has a start tag too.
#[verifier::external_body]
pub(crate) fn part_reader<'a>(bytes: &'a [u8]) -> (reader: quick_xml::Reader<&'a [u8]>)
    ensures
        unread_tags(reader) == part_tags(bytes@),
{
    let mut reader = quick_xml::Reader::from_reader(bytes);
    let config = reader.config_mut();
    config.check_end_names = false;
    config.trim_text(false);
    config.check_comments = false;
    config.expand_empty_elements = true;
    reader
}

/// Whether this is what comes next of the pieces.
pub open spec fn is_next_tag(
    step: Option<Option<XmlTag>>,
    before: Seq<Option<TagModel>>,
    after: Seq<Option<TagModel>>,
) -> bool {
    match step {
        Some(tag) => before.len() > 0 && optional_tag(tag) == before[0] && after == before.skip(1),
        None => before.len() == 0,
    }
}

/// `quick_xml::Reader::read_event` gives the next piece, with
/// `quick_xml::events::BytesStart::attributes_raw` what follows the name of a start tag.
/// There is none after the end or a complaint.
#[verifier::external_body]
pub(crate) fn next_tag(reader: &mut quick_xml::Reader<&[u8]>) -> (step: Option<Option<XmlTag>>)
    ensures
        is_next_tag(step, unread_tags(*old(reader)), unread_tags(*final(reader))),
{
    match reader.read_event() {
        Ok(Event::Start(tag)) => {
            let name = tag.local_name().as_ref().to_owned();
            Some(Some(XmlTag { name, attributes: tag.attributes_raw().to_owned() }))
        },
        Ok(Event::Eof) => None,
        Ok(_) => Some(None),
        Err(_) => None,
    }
}

/// A text with each carriage return, and a line feed behind it if there is one, put
/// down as one line feed.
pub open spec fn with_line_feeds(text: Seq<char>) -> Seq<char>
    decreases text.len(),
{
    if text.len() == 0 {
        Seq::empty()
    } else if text[0] == '\r' {
        seq!['\n'] + with_line_feeds(
            text.skip(
                if text.len() > 1 && text[1] == '\n' {
                    2
                } else {
                    1
                },
            ),
        )
    } else {
        seq![text[0]] + with_line_feeds(text.skip(1))
    }
}

/// `quick_xml::events::BytesText::xml10_content` gives characters between tags with
/// the line ends of XML: a carriage return with a line feed behind it, and a carriage
/// return alone, become one line feed.
#[verifier::external_body]
pub(crate) fn text_content(written: &str) -> (content: String)
    ensures
        content@ == with_line_feeds(written@),
{
    quick_xml::events::BytesText::from_escaped(written).xml10_content().into_owned()
}

/// The character that a reference stands for by its number, if it is one by number, or
/// why it stands for none.
pub uninterp spec fn numbered_character(name: Seq<char>) -> Result<Option<char>, Seq<char>>;

/// A character that may be missing or a message, by their content.
pub open spec fn character_outcome(outcome: Result<Option<char>, String>) -> Result<
    Option<char>,
    Seq<char>,
> {
    match outcome {
        Ok(character) => Ok(character),
        Err(message) => Err(message@),
    }
}

/// `quick_xml::events::BytesRef::resolve_char_ref` gives the character of a reference
/// by number. A reference whose name does not begin with a number sign is none.
#[verifier::external_body]
pub(crate) fn resolve_reference(name: &str) -> (outcome: Result<Option<char>, String>)
    ensures
        character_outcome(outcome) == numbered_character(name@),
        (outcome matches Ok(character) && character is None) == !(name@.len() > 0 && name@[0] == '#'),
{
    quick_xml::events::BytesRef::new(name).resolve_char_ref().map_err(|error| error.to_string())
}

// ---------------------------------------------------------------------------------
// The text of a document
// ---------------------------------------------------------------------------------

/// The character that one of the five predefined entities stands for.
pub open spec fn entity_character(name: Seq<char>) -> Option<char> {
    if name == "amp"@ {
        Some('&')
    } else if name == "lt"@ {
        Some('<')
    } else if name == "gt"@ {
        Some('>')
    } else if name == "quot"@ {
        Some('"')
    } else if name == "apos"@ {
        Some('\'')
    } else {
        None
    }
}

/// The character that one of the five predefined entities stands for.
pub fn predefined_entity(name: &str) -> (character: Option<char>)
    ensures
        character == entity_character(name@),
{
    if same_text(name, "amp") {
        Some('&')
    } else if same_text(name, "lt") {
        Some('<')
    } else if same_text(name, "gt") {
        Some('>')
    } else if same_text(name, "quot") {
        Some('"')
    } else if same_text(name, "apos") {
        Some('\'')
    } else {
        None
    }
}

/// What has been read of a document's text, and whether the next characters belong to
/// it.
pub struct TextModel {
    pub output: Seq<char>,
    pub inside_text: bool,
}

impl TextModel {
    /// Before the first piece.
    pub open spec fn initial() -> TextModel {
        TextModel { output: Seq::empty(), inside_text: false }
    }

    /// With one more character.
    pub open spec fn with(self, character: char) -> TextModel {
        TextModel { output: self.output.push(character), ..self }
    }

    /// After a reference with what its number stands for.
    pub open spec fn after_reference(self, name: Seq<char>, numbered: Option<char>) -> TextModel {
        if !self.inside_text {
            self
        } else {
            match numbered {
                Some(character) => self.with(character),
                None => match entity_character(name) {
                    Some(character) => self.with(character),
                    None => self,
                },
            }
        }
    }

    /// After a piece that is no reference. Text runs are the elements named `t`; a tab
    /// element is a tab, an empty break element is a line feed, and so is the end of a
    /// paragraph.
    pub open spec fn after_event(self, event: XmlEventModel) -> TextModel {
        match event {
            XmlEventModel::Start(name) => {
                let entered = TextModel { inside_text: name == "t"@, ..self };
                if name == "tab"@ {
                    entered.with('\t')
                } else {
                    entered
                }
            },
            XmlEventModel::Empty(name) => if name == "tab"@ {
                self.with('\t')
            } else if name == "br"@ {
                self.with('\n')
            } else {
                self
            },
            XmlEventModel::Text(text) => if self.inside_text {
                TextModel { output: self.output + with_line_feeds(text), ..self }
            } else {
                self
            },
            XmlEventModel::End(name) => if name == "t"@ {
                TextModel { inside_text: false, ..self }
            } else if name == "p"@ {
                self.with('\n')
            } else {
                self
            },
            XmlEventModel::Reference(_) => self,
            XmlEventModel::Other => self,
        }
    }

    /// After a piece, or why it cannot be taken.
    pub open spec fn after(self, event: XmlEventModel) -> Result<TextModel, Seq<char>> {
        match event {
            XmlEventModel::Reference(name) => if self.inside_text {
                match numbered_character(name) {
                    Ok(numbered) => Ok(self.after_reference(name, numbered)),
                    Err(message) => Err(message),
                }
            } else {
                Ok(self)
            },
            _ => Ok(self.after_event(event)),
        }
    }

    /// The text once all pieces have been read, or why they cannot be.
    pub open spec fn finished(self, pieces: XmlPieces) -> Result<Seq<char>, Seq<char>>
        decreases pieces.events.len(),
    {
        if pieces.events.len() == 0 {
            match pieces.complaint {
                Some(message) => Err(message),
                None => Ok(self.output),
            }
        } else {
            match self.after(pieces.events[0]) {
                Ok(next) => next.finished(pieces.rest()),
                Err(message) => Err(message),
            }
        }
    }
}

/// The text of a document's XML, or why it has none.
pub open spec fn document_text(xml: Seq<char>) -> Result<Seq<char>, Seq<char>> {
    TextModel::initial().finished(xml_pieces(xml))
}

/// Gathers the text of a document from its pieces.
#[derive(Debug)]
pub struct TextGatherer {
    output: String,
    inside_text: bool,
}

impl View for TextGatherer {
    type V = TextModel;

    closed spec fn view(&self) -> TextModel {
        TextModel { output: self.output@, inside_text: self.inside_text }
    }
}

impl TextGatherer {
    /// Before the first piece.
    pub fn new() -> (gatherer: Self)
        ensures
            gatherer@ == TextModel::initial(),
    {
        TextGatherer { output: String::new(), inside_text: false }
    }

    /// Takes a reference, given what its number stands for.
    pub fn take_reference(&mut self, name: &str, numbered: Option<char>)
        ensures
            final(self)@ == old(self)@.after_reference(name@, numbered),
    {
        if !self.inside_text {
            return;
        }
        match numbered {
            Some(character) => {
                self.output.push(character);
            },
            None => {
                match predefined_entity(name) {
                    Some(character) => {
                        self.output.push(character);
                    },
                    None => {},
                }
            },
        }
    }

    /// Takes a piece that is no reference.
    pub fn take_event(&mut self, event: &XmlEvent)
        ensures
            final(self)@ == old(self)@.after_event(event@),
    {
        match event {
            XmlEvent::Start(name) => {
                self.inside_text = same_text(name.as_str(), "t");
                if same_text(name.as_str(), "tab") {
                    self.output.push('\t');
                }
            },
            XmlEvent::Empty(name) => {
                if same_text(name.as_str(), "tab") {
                    self.output.push('\t');
                } else if same_text(name.as_str(), "br") {
                    self.output.push('\n');
                }
            },
            XmlEvent::Text(text) => {
                if self.inside_text {
                    let content = text_content(text.as_str());
                    self.output.append(content.as_str());
                }
            },
            XmlEvent::End(name) => {
                if same_text(name.as_str(), "t") {
                    self.inside_text = false;
                } else if same_text(name.as_str(), "p") {
                    self.output.push('\n');
                }
            },
            XmlEvent::Reference(_) => {},
            XmlEvent::Other => {},
        }
    }

    /// Takes any piece, or says why it cannot.
    pub fn take(&mut self, event: &XmlEvent) -> (outcome: Result<(), String>)
        ensures
            match outcome {
                Ok(()) => old(self)@.after(event@) == Ok::<TextModel, Seq<char>>(final(self)@),
                Err(message) => old(self)@.after(event@) == Err::<TextModel, Seq<char>>(message@),
            },
    {
        match event {
            XmlEvent::Reference(name) => {
                if self.inside_text {
                    match resolve_reference(name.as_str()) {
                        Ok(numbered) => {
                            self.take_reference(name.as_str(), numbered);
                        },
                        Err(message) => {
                            return Err(message);
                        },
                    }
                }
            },
            _ => {
                self.take_event(event);
            },
        }
        Ok(())
    }

    /// The text that was gathered.
    pub fn into_text(self) -> (text: String)
        ensures
            text@ == self@.output,
    {
        self.output
    }
}

/// The text of a document's XML, or why it has none.
pub fn extract_docx_text(xml: &str) -> (outcome: Result<String, String>)
    ensures
        text_outcome(outcome) == document_text(xml@),
{
    let mut reader = reader_of(xml);
    let mut gatherer = TextGatherer::new();
    loop
        invariant
            gatherer@.finished(unread(reader)) == document_text(xml@),
        decreases unread(reader).events.len(),
    {
        match next_piece(&mut reader) {
            XmlStep::Event(event) => match gatherer.take(&event) {
                Ok(()) => {},
                Err(message) => {
                    return Err(message);
                },
            },
            XmlStep::End => {
                return Ok(gatherer.into_text());
            },
            XmlStep::Complaint(message) => {
                return Err(message);
            },
        }
    }
}

// ---------------------------------------------------------------------------------
// Laws
// ---------------------------------------------------------------------------------

/// A piece only adds to the end of the text.
pub proof fn law_text_only_grows(state: TextModel, event: XmlEventModel)
    ensures
        state.after(event) matches Ok(next) ==> state.output.is_prefix_of(next.output),
{
    if let Ok(next) = state.after(event) {
        assert(next.output.subrange(0, state.output.len() as int) =~= state.output);
    }
}

/// Characters outside the text runs of a document are not part of its text.
pub proof fn law_text_outside_runs_is_dropped(state: TextModel, text: Seq<char>, name: Seq<char>)
    requires
        !state.inside_text,
    ensures
        state.after(XmlEventModel::Text(text)) == Ok::<TextModel, Seq<char>>(state),
        state.after(XmlEventModel::Reference(name)) == Ok::<TextModel, Seq<char>>(state),
{
}

/// Line ends of XML leave no carriage return.
pub proof fn law_no_carriage_return_is_left(text: Seq<char>)
    ensures
        !with_line_feeds(text).contains('\r'),
    decreases text.len(),
{
    if text.len() > 0 {
        let used: int = if text[0] == '\r' && text.len() > 1 && text[1] == '\n' {
            2
        } else {
            1
        };
        law_no_carriage_return_is_left(text.skip(used));
        let tail = with_line_feeds(text.skip(used));
        let all = with_line_feeds(text);
        assert forall|i: int| 0 <= i < all.len() implies all[i] != '\r' by {
            if i > 0 {
                assert(all[i] == tail[i - 1]);
                assert(tail.contains(tail[i - 1]));
            }
        }
    }
}

/// The characters of a text run are part of the text, behind what was read before, with
/// line ends put down as line feeds; what follows the run is not in it.
pub proof fn law_text_of_runs_is_kept(state: TextModel, text: Seq<char>, name: Seq<char>)
    requires
        name != "tab"@,
    ensures
        state.after(XmlEventModel::Start("t"@)) == Ok::<TextModel, Seq<char>>(
            (TextModel { output: state.output, inside_text: true }),
        ),
        state.after(XmlEventModel::Start(name)) == Ok::<TextModel, Seq<char>>(
            (TextModel { output: state.output, inside_text: name == "t"@ }),
        ),
        state.inside_text ==> state.after(XmlEventModel::Text(text)) == Ok::<TextModel, Seq<char>>(
            (TextModel { output: state.output + with_line_feeds(text), inside_text: true }),
        ),
        state.after(XmlEventModel::End("t"@)) == Ok::<TextModel, Seq<char>>(
            (TextModel { output: state.output, inside_text: false }),
        ),
{
    reveal_strlit("t");
    reveal_strlit("tab");
    assert("t"@.len() != "tab"@.len());
}

/// The end of a paragraph and an empty break are line feeds, a tab element is a tab, and no
/// other element adds to the text.
pub proof fn law_elements_that_are_characters(state: TextModel, name: Seq<char>)
    ensures
        state.after(XmlEventModel::Empty(name)) == Ok::<TextModel, Seq<char>>(
            (TextModel {
                output: state.output + (if name == seq!['b', 'r'] {
                    seq!['\n']
                } else if name == seq!['t', 'a', 'b'] {
                    seq!['\t']
                } else {
                    Seq::empty()
                }),
                inside_text: state.inside_text,
            }),
        ),
        state.after(XmlEventModel::End(name)) == Ok::<TextModel, Seq<char>>(
            (TextModel {
                output: state.output + (if name == seq!['p'] {
                    seq!['\n']
                } else {
                    Seq::empty()
                }),
                inside_text: state.inside_text && name != seq!['t'],
            }),
        ),
        state.after(XmlEventModel::Start(name)) == Ok::<TextModel, Seq<char>>(
            (TextModel {
                output: state.output + (if name == seq!['t', 'a', 'b'] {
                    seq!['\t']
                } else {
                    Seq::empty()
                }),
                inside_text: name == seq!['t'],
            }),
        ),
        state.after(XmlEventModel::Other) == Ok::<TextModel, Seq<char>>(state),
{
    reveal_strlit("t");
    reveal_strlit("p");
    reveal_strlit("br");
    reveal_strlit("tab");
    assert("t"@ =~= seq!['t']);
    assert("p"@ =~= seq!['p']);
    assert("br"@ =~= seq!['b', 'r']);
    assert("tab"@ =~= seq!['t', 'a', 'b']);
    assert(state.output + Seq::<char>::empty() =~= state.output);
    assert(state.output + seq!['\n'] =~= state.output.push('\n'));
    assert(state.output + seq!['\t'] =~= state.output.push('\t'));
    assert(seq!['t'].len() == 1 && seq!['p'].len() == 1);
    assert(seq!['t'][0] != seq!['p'][0]);
}

/// Inside a run a reference adds the character that its number or its name stands for.
pub proof fn law_references_are_characters(state: TextModel, name: Seq<char>)
    requires
        state.inside_text,
    ensures
        numbered_character(name) matches Err(message) ==> state.after(
            XmlEventModel::Reference(name),
        ) == Err::<TextModel, Seq<char>>(message),
        numbered_character(name) matches Ok(numbered) ==> state.after(
            XmlEventModel::Reference(name),
        ) == Ok::<TextModel, Seq<char>>(
            (TextModel {
                output: state.output + (match numbered {
                    Some(character) => seq![character],
                    None => if name == "amp"@ {
                        seq!['&']
                    } else if name == "lt"@ {
                        seq!['<']
                    } else if name == "gt"@ {
                        seq!['>']
                    } else if name == "quot"@ {
                        seq!['"']
                    } else if name == "apos"@ {
                        seq!['\'']
                    } else {
                        Seq::empty()
                    },
                }),
                inside_text: true,
            }),
        ),
{
    assert(state.output + Seq::<char>::empty() =~= state.output);
    assert forall|c: char| #[trigger] state.output.push(c) == state.output + seq![c] by {
        assert(state.output.push(c) =~= state.output + seq![c]);
    }
}

/// The pieces of a document are read one after the other to the last, and each goes on from
/// what the ones before it made. The first that cannot be taken, or a complaint behind the
/// last, is why there is no text.
pub proof fn law_every_piece_is_read(
    state: TextModel,
    event: XmlEventModel,
    rest: Seq<XmlEventModel>,
    complaint: Option<Seq<char>>,
)
    ensures
        state.finished(XmlPieces { events: Seq::empty(), complaint }) == (match complaint {
            Some(message) => Err::<Seq<char>, Seq<char>>(message),
            None => Ok(state.output),
        }),
        state.finished(XmlPieces { events: seq![event] + rest, complaint }) == (match state.after(
            event,
        ) {
            Ok(next) => next.finished(XmlPieces { events: rest, complaint }),
            Err(message) => Err(message),
        }),
{
    let pieces = XmlPieces { events: seq![event] + rest, complaint };
    assert(pieces.rest().events =~= rest);
    assert(pieces.rest() == XmlPieces { events: rest, complaint });
    assert(pieces.events[0] == event);
}

/// A text without carriage returns stays, and one with a carriage return has a line feed
/// for it and for the line feed behind it.
pub proof fn law_line_ends_become_line_feeds(left: Seq<char>, right: Seq<char>)
    requires
        !left.contains('\r'),
    ensures
        with_line_feeds(left) == left,
        with_line_feeds(left + right) == left + with_line_feeds(right),
        with_line_feeds(left + seq!['\r', '\n'] + right) == left + seq!['\n'] + with_line_feeds(
            right,
        ),
        right.len() == 0 || right[0] != '\n' ==> with_line_feeds(left + seq!['\r'] + right) == left
            + seq!['\n'] + with_line_feeds(right),
    decreases left.len(),
{
    if left.len() == 0 {
        assert(left + right =~= right);
        let both = left + seq!['\r', '\n'] + right;
        assert(both.skip(2) =~= right);
        assert(with_line_feeds(both) =~= left + seq!['\n'] + with_line_feeds(right));
        let one = left + seq!['\r'] + right;
        assert(one.skip(1) =~= right);
        if right.len() == 0 || right[0] != '\n' {
            assert(with_line_feeds(one) =~= left + seq!['\n'] + with_line_feeds(right));
        }
        assert(with_line_feeds(left) =~= left);
        assert(with_line_feeds(left + right) =~= left + with_line_feeds(right));
    } else {
        let tail = left.skip(1);
        assert(left[0] != '\r');
        assert forall|c: char| #[trigger] tail.contains(c) implies left.contains(c) by {
            let i = choose|i: int| 0 <= i < tail.len() && tail[i] == c;
            assert(left[i + 1] == c);
        }
        law_line_ends_become_line_feeds(tail, right);
        assert((left + right).skip(1) =~= tail + right);
        assert((left + seq!['\r', '\n'] + right).skip(1) =~= tail + seq!['\r', '\n'] + right);
        assert((left + seq!['\r'] + right).skip(1) =~= tail + seq!['\r'] + right);
        assert(left =~= seq![left[0]] + tail);
        assert(with_line_feeds(left) =~= left);
        assert(with_line_feeds(left + right) =~= left + with_line_feeds(right));
        assert(with_line_feeds(left + seq!['\r', '\n'] + right) =~= left + seq!['\n']
            + with_line_feeds(right));
        if right.len() == 0 || right[0] != '\n' {
            assert(with_line_feeds(left + seq!['\r'] + right) =~= left + seq!['\n']
                + with_line_feeds(right));
        }
    }
}

} // verus!
