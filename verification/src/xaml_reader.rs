//! The markup reading edge: tokenizes document bytes through the external
//! XML parser and assembles the element tree from the resulting events.
//! Obtaining the bytes (files, sockets) belongs to the embedding
//! application; this module starts where the bytes already exist.

use vstd::prelude::*;
use crate::assembly::AssemblyError;
use crate::assembly::ParseEvent;
use crate::assembly::assemble;
use crate::assembly::build_tree;
use crate::assembly::tree_models;
use crate::ui_elements::UITree;

verus! {

/// The start-element, end-element and character events the markup
/// tokenizer derives from a byte sequence; a function of the bytes alone.
pub uninterp spec fn markup_events_of(bytes: Seq<u8>) -> Seq<ParseEvent>;

/// Relies on `xml::reader::EventReader` (crate `xml`): tokenizes a markup
/// document into start-element, end-element and character events in
/// document order, unescaping character data and discarding namespace
/// prefixes in favour of local names. Event kinds that carry no element
/// structure are dropped and tokenization stops at the first parse error,
/// which mirrors what the assembly rules do with such input.
#[verifier::external_body]
fn parse_markup(text: &[u8]) -> (r: Vec<ParseEvent>)
    ensures
        r@ == markup_events_of(text@),
{
    let mut out = Vec::new();
    for event in xml::reader::EventReader::new(text) {
        match event {
            Ok(xml::reader::XmlEvent::StartElement { name, attributes, .. }) => {
                let attributes = attributes.into_iter().map(|a| (a.name.local_name, a.value)).collect();
                out.push(ParseEvent::StartElement { name: name.local_name, attributes })
            },
            Ok(xml::reader::XmlEvent::EndElement { name }) => out.push(ParseEvent::EndElement { name: name.local_name }),
            Ok(xml::reader::XmlEvent::Characters(s)) => out.push(ParseEvent::Characters(s)),
            Ok(_) => {},
            Err(_) => break,
        }
    }
    out
}

/// Reads a markup document from raw bytes: tokenizes them through the
/// external parser, then assembles the element tree from the events.
/// Succeeds exactly when the tokenized stream reduces to one root element.
pub fn read_xaml(text: &[u8]) -> (r: Result<UITree, AssemblyError>)
    ensures
        match r {
            Ok(t) => {
                &&& assemble(markup_events_of(text@)).stack.len() == 1
                &&& t.wf()
                &&& tree_models(t, assemble(markup_events_of(text@)))
                &&& t.root == Some(0usize)
            },
            Err(e) => {
                &&& assemble(markup_events_of(text@)).stack.len() != 1
                &&& e == AssemblyError::Malformed
            },
        },
{
    let events = parse_markup(text);
    build_tree(&events)
}

} // verus!
