//! A check of the YAML examples in a book's chapters.
//!
//! A chapter is Markdown. The tester reads it as a sequence of events and
//! collects the text of every fenced code block that is marked `yaml`.

use pulldown_cmark::CodeBlockKind::Fenced;
use pulldown_cmark::{Event, Parser, Tag};
use vstd::prelude::*;
use vstd::string::StringExecFns;

verus! {

/// What an event of a Markdown document means to the tester.
#[derive(Debug, PartialEq, Eq)]
pub enum MdEvent {
    /// A fenced code block begins; the field is its info string.
    FenceStart(String),
    /// A fenced code block ends; the field is its info string.
    FenceEnd(String),
    /// A run of text.
    Text(String),
    /// Any other event.
    Other,
}

/// An [`MdEvent`] as a mathematical value.
pub enum MdToken {
    /// A fenced code block begins; the field is its info string.
    FenceStart(Seq<char>),
    /// A fenced code block ends; the field is its info string.
    FenceEnd(Seq<char>),
    /// A run of text.
    Text(Seq<char>),
    /// Any other event.
    Other,
}

impl View for MdEvent {
    type V = MdToken;

    open spec fn view(&self) -> MdToken {
        match self {
            MdEvent::FenceStart(info) => MdToken::FenceStart(info@),
            MdEvent::FenceEnd(info) => MdToken::FenceEnd(info@),
            MdEvent::Text(text) => MdToken::Text(text@),
            MdEvent::Other => MdToken::Other,
        }
    }
}

/// The events as mathematical values.
pub open spec fn tokens_of(events: Seq<MdEvent>) -> Seq<MdToken> {
    Seq::new(events.len(), |i: int| events[i]@)
}

/// The collected blocks as mathematical values.
pub open spec fn block_views(blocks: Seq<Option<String>>) -> Seq<Option<Seq<char>>> {
    Seq::new(
        blocks.len(),
        |i: int|
            match blocks[i] {
                Some(text) => Some(text@),
                None => None,
            },
    )
}

/// The info string that marks a block as YAML.
pub open spec fn yaml_tag() -> Seq<char> {
    "yaml"@
}

/// What the tester has seen so far.
pub struct Scan {
    /// The text collected since the last start of a YAML block, or since
    /// the beginning; `None` after the end of a YAML block.
    pub open: Option<Seq<char>>,
    /// What was collected at the end of each YAML block.
    pub blocks: Seq<Option<Seq<char>>>,
}

/// What the tester has seen after one more event. The start of a YAML
/// block begins a new collection, text is added to an open collection, and
/// the end of a YAML block hands the collection over and closes it.
pub open spec fn scan_step(seen: Scan, token: MdToken) -> Scan {
    match token {
        MdToken::FenceStart(info) => if info == yaml_tag() {
            Scan { open: Some(Seq::empty()), blocks: seen.blocks }
        } else {
            seen
        },
        MdToken::FenceEnd(info) => if info == yaml_tag() {
            Scan { open: None, blocks: seen.blocks.push(seen.open) }
        } else {
            seen
        },
        MdToken::Text(text) => match seen.open {
            Some(sofar) => Scan { open: Some(sofar + text), blocks: seen.blocks },
            None => seen,
        },
        MdToken::Other => seen,
    }
}

/// What the tester has seen after the first `upto` events.
pub open spec fn scan(tokens: Seq<MdToken>, upto: nat) -> Scan
    decreases upto,
{
    if upto == 0 {
        Scan { open: Some(Seq::empty()), blocks: Seq::empty() }
    } else {
        scan_step(scan(tokens, (upto - 1) as nat), tokens[upto - 1])
    }
}

/// The text of each YAML block of a document, in order.
pub open spec fn yaml_blocks_of(tokens: Seq<MdToken>) -> Seq<Option<Seq<char>>> {
    scan(tokens, tokens.len()).blocks
}

/// The events that the Markdown parser gives for a document.
pub uninterp spec fn markdown_events(content: Seq<char>) -> Seq<MdToken>;

/// Runs `pulldown_cmark::Parser::new` on `content` and hands out its
/// events, each as the tester reads it. The contract names the sequence of
/// events: it is what the parser gives for this text, and nothing more is
/// claimed of it.
#[verifier::external_body]
fn parse_markdown(content: &str) -> (events: Vec<MdEvent>)
    ensures
        tokens_of(events@) == markdown_events(content@),
{
    let mut events = Vec::new();
    for event in Parser::new(content) {
        events.push(match event {
            Event::Start(Tag::CodeBlock(Fenced(info))) => MdEvent::FenceStart(info.to_string()),
            Event::End(Tag::CodeBlock(Fenced(info))) => MdEvent::FenceEnd(info.to_string()),
            Event::Text(text) => MdEvent::Text(text.to_string()),
            _ => MdEvent::Other,
        });
    }
    events
}

/// The text of each YAML block among `events`, in order. An entry is
/// `None` where a YAML block ends and nothing is open.
pub fn collect_yaml_blocks(events: &Vec<MdEvent>) -> (blocks: Vec<Option<String>>)
    ensures
        block_views(blocks@) == yaml_blocks_of(tokens_of(events@)),
{
    let yaml = String::from_str("yaml");
    let ghost tokens = tokens_of(events@);
    let mut open: Option<String> = Some(String::new());
    let mut blocks: Vec<Option<String>> = Vec::new();
    let mut i: usize = 0;
    assert(block_views(blocks@) =~= scan(tokens, 0).blocks);
    while i < events.len()
        invariant
            i <= events@.len(),
            tokens == tokens_of(events@),
            yaml@ == yaml_tag(),
            open is Some <==> scan(tokens, i as nat).open is Some,
            open is Some ==> open->0@ == scan(tokens, i as nat).open->0,
            block_views(blocks@) == scan(tokens, i as nat).blocks,
        decreases events@.len() - i,
    {
        let ghost seen = scan(tokens, i as nat);
        assert(tokens[i as int] == events@[i as int]@);
        assert(scan(tokens, (i + 1) as nat) == scan_step(seen, tokens[i as int]));
        match &events[i] {
            MdEvent::FenceStart(info) => {
                if *info == yaml {
                    open = Some(String::new());
                }
            },
            MdEvent::FenceEnd(info) => {
                if *info == yaml {
                    let ghost earlier = blocks@;
                    blocks.push(open);
                    open = None;
                    assert(block_views(blocks@) =~= block_views(earlier).push(seen.open));
                }
            },
            MdEvent::Text(text) => {
                open =
                match open {
                    Some(sofar) => Some(sofar.concat(text.as_str())),
                    None => None,
                };
            },
            MdEvent::Other => {},
        }
        i += 1;
    }
    blocks
}

/// A chapter of a book.
#[derive(Debug, PartialEq, Eq)]
pub struct Chapter {
    /// The name of the chapter.
    pub name: String,
    /// The Markdown text of the chapter.
    pub content: String,
}

/// A tester of the YAML code blocks of a book.
#[derive(Debug, Clone, Copy, PartialEq, Eq, Structural)]
pub struct YamlTester;

impl YamlTester {
    /// A tester.
    pub fn new() -> (tester: YamlTester)
        ensures
            tester == YamlTester,
    {
        YamlTester
    }

    /// The name under which the tester is known to the book builder.
    pub fn name(&self) -> (name: &'static str)
        ensures
            name@ == "lace-yaml-tester"@,
    {
        "lace-yaml-tester"
    }

    /// The text of each YAML block of the chapter `content`, in order.
    pub fn yaml_blocks(&self, content: &str) -> (blocks: Vec<Option<String>>)
        ensures
            block_views(blocks@) == yaml_blocks_of(markdown_events(content@)),
    {
        let events = parse_markdown(content);
        collect_yaml_blocks(&events)
    }

    /// Goes through the chapters of a book, in order, and gives for each
    /// the text of its YAML blocks.
    pub fn run(&self, chapters: &Vec<Chapter>) -> (found: Vec<Vec<Option<String>>>)
        ensures
            found@.len() == chapters@.len(),
            forall|i: int|
                0 <= i < chapters@.len() ==> block_views((#[trigger] found@[i])@) == yaml_blocks_of(
                    markdown_events(chapters@[i].content@),
                ),
    {
        let mut found: Vec<Vec<Option<String>>> = Vec::new();
        let mut i: usize = 0;
        while i < chapters.len()
            invariant
                i <= chapters@.len(),
                found@.len() == i,
                forall|j: int|
                    0 <= j < i ==> block_views((#[trigger] found@[j])@) == yaml_blocks_of(
                        markdown_events(chapters@[j].content@),
                    ),
            decreases chapters@.len() - i,
        {
            let blocks = self.yaml_blocks(chapters[i].content.as_str());
            found.push(blocks);
            i += 1;
        }
        found
    }
}

} // verus!
