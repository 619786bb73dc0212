use vstd::prelude::*;
use crate::caption::{Caption, SpecCaption, caps_view};
use crate::codec;
use crate::engine;
use crate::matcher::ExclusionSet;

verus! {

/// Why a file could not be processed. A malformed or unreadable input is
/// reported and skipped, never fatal to a batch run; so is an output that
/// cannot be written.
#[derive(Clone, Copy, PartialEq, Eq, Structural, Debug)]
pub enum ProcessError {
    ParseFailed,
    WriteFailed,
}

/// The collections on which processing succeeds: the input reads as a
/// caption document whose renumbering stays within the machine integers.
pub open spec fn spec_process_ok(input: Seq<u8>, ex: Seq<Seq<u8>>) -> bool {
    match codec::spec_parse(input) {
        None => false,
        Some(cs) => engine::renumber_safe(cs, ex),
    }
}

/// The bytes that processing an input document yields: the document read,
/// filtered and renumbered, and written back out.
pub open spec fn spec_process(input: Seq<u8>, ex: Seq<Seq<u8>>) -> Seq<u8> {
    codec::spec_ser(engine::spec_apply(codec::spec_parse(input)->Some_0, ex))
}

/// Processes the content of one subtitle file: reads the caption
/// collection, removes the captions whose text matches the exclusion set,
/// renumbers the rest, and renders the result in the same on-disk format.
/// An input that does not read as a caption document fails with
/// `ParseFailed`; so does one whose renumbering would fall below zero.
pub fn process_content(input: &Vec<u8>, ex: &ExclusionSet) -> (r: Result<Vec<u8>, ProcessError>)
    ensures
        spec_process_ok(input@, ex@) ==> (r matches Ok(out) && out@ == spec_process(input@, ex@)),
        !spec_process_ok(input@, ex@) ==> (r matches Err(e) && e == ProcessError::ParseFailed),
{
    let caps = match codec::parse(input) {
        None => {
            return Err(ProcessError::ParseFailed);
        },
        Some(caps) => caps,
    };
    proof {
        codec::lemma_parse_wf(input@);
    }
    let filtered = match engine::apply_checked(&caps, ex) {
        None => {
            return Err(ProcessError::ParseFailed);
        },
        Some(f) => f,
    };
    proof {
        engine::lemma_apply_preserves_wf(caps_view(caps@), ex@);
        assert forall|i: int|
            0 <= i < filtered@.len() implies (#[trigger] filtered@[i]).start.wf()
            && filtered@[i].end.wf() by {
            assert(caps_view(filtered@)[i] == filtered@[i]@);
            assert(caps_view(filtered@)[i].wf());
        }
    }
    let out = codec::serialize(&filtered);
    Ok(out)
}

} // verus!
