//! Plain text of an XML document: its character data, each run followed by
//! a space.

use vstd::prelude::*;

verus! {

/// The character-data runs of an XML document, in order, as `xml-rs`'s
/// event reader reports them; `None` where the reader reports an error.
pub uninterp spec fn xml_character_data(b: Seq<u8>) -> Option<Seq<Seq<char>>>;

/// Relies on `xml::EventReader` with its default configuration: iterating it
/// yields the document's events in order and ends after the end of the
/// document or after the first error. The `Characters` events are kept.
#[verifier::external_body]
fn xml_character_runs(bytes: &[u8]) -> (r: Option<Vec<String>>)
    ensures
        match r {
            Some(v) => xml_character_data(bytes@) == Some(v@.map_values(|s: String| s@)),
            None => xml_character_data(bytes@) is None,
        },
{
    let mut runs = Vec::new();
    for event in xml::EventReader::new(bytes) {
        match event {
            Ok(xml::reader::XmlEvent::Characters(text)) => runs.push(text),
            Ok(_) => {},
            Err(_) => return None,
        }
    }
    Some(runs)
}

/// Each run, followed by a space, one after the other.
pub open spec fn spaced(runs: Seq<Seq<char>>) -> Seq<char>
    decreases runs.len(),
{
    if runs.len() == 0 {
        seq![]
    } else {
        spaced(runs.drop_last()) + runs.last() + seq![' ']
    }
}

/// The plain text of an XML document, or `None` where it is not well-formed.
pub fn parse_xml_text(bytes: &[u8]) -> (r: Option<String>)
    ensures
        match xml_character_data(bytes@) {
            Some(runs) => r is Some && r->0@ == spaced(runs),
            None => r is None,
        },
{
    let runs = match xml_character_runs(bytes) {
        Some(runs) => runs,
        None => return None,
    };
    let ghost views = runs@.map_values(|s: String| s@);
    let mut content = String::new();
    let space = " ";
    proof {
        reveal_strlit(" ");
    }
    let mut i: usize = 0;
    while i < runs.len()
        invariant
            views == runs@.map_values(|s: String| s@),
            i <= runs@.len(),
            content@ == spaced(views.take(i as int)),
            space@ == seq![' '],
        decreases runs@.len() - i,
    {
        proof {
            assert(views.take(i + 1).drop_last() =~= views.take(i as int));
            assert(views.take(i + 1).last() == runs@[i as int]@);
        }
        content.append(runs[i].as_str());
        content.append(space);
        i += 1;
    }
    proof {
        assert(views.take(i as int) =~= views);
    }
    Some(content)
}

} // verus!
