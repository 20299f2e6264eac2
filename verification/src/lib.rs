//! Merging of two chronologically ordered WebVTT transcripts into one,
//! with each cue tagged by the speaker of its source.
//!
//! The pipeline: each source stream is parsed into timed blocks, non-speech
//! annotations are filtered out, each block is tagged with its source's
//! voice tag, and the second source's blocks are interleaved into the first
//! source's list by a forward-only merge cursor. The merged list is then
//! rendered back into transcript text.

use vstd::prelude::*;

pub mod block;
pub mod merge;
pub mod parser;
pub mod render;
pub mod roundtrip;
pub mod text;
pub mod timekey;

use crate::block::opt_str_view;
use crate::block::make_voice_tag;
use crate::block::voice_tag_spec;
use crate::merge::merge_blocks;
use crate::merge::merge_spec;
use crate::parser::check_header;
use crate::parser::header_ok;
use crate::parser::parse_blocks;
use crate::parser::parse_source_spec;
use crate::render::render_transcript;
use crate::render::render_transcript_spec;
use crate::text::split_lines;
use crate::text::split_lines_spec;

verus! {

/// The ways a merge run can fail. I/O failures are the caller's business;
/// these are the faults the core logic itself detects.
#[derive(Clone, Copy, Debug, PartialEq, Eq, Structural)]
pub enum VttError {
    /// An input stream does not begin with the `WEBVTT` header framing.
    Format,
    /// A timing line's start timestamp does not reduce to a digit string
    /// that fits in a machine word.
    Parse,
}

/// What a whole run denotes: reject a stream whose header framing is wrong,
/// otherwise parse, filter and tag both sources, interleave the second into
/// the first, and render the merged list.
pub open spec fn merge_result_spec(
    s1: Seq<char>,
    s2: Seq<char>,
    name1: Option<Seq<char>>,
    name2: Option<Seq<char>>,
    remove_comments: bool,
) -> Result<Seq<char>, VttError> {
    let lines1 = split_lines_spec(s1);
    let lines2 = split_lines_spec(s2);
    if !(header_ok(lines1) && header_ok(lines2)) {
        Err(VttError::Format)
    } else {
        let b1 = parse_source_spec(lines1, voice_tag_spec(name1), remove_comments);
        let b2 = parse_source_spec(lines2, voice_tag_spec(name2), remove_comments);
        if b1 is Some && b2 is Some {
            Ok(render_transcript_spec(merge_spec(b1->Some_0, b2->Some_0)))
        } else {
            Err(VttError::Parse)
        }
    }
}

/// Merges two transcript streams into one rendered transcript, tagging each
/// block with its source's voice tag.
pub fn merge_transcripts(
    src1: &str,
    src2: &str,
    speaker1: &Option<String>,
    speaker2: &Option<String>,
    remove_comments: bool,
) -> (r: Result<String, VttError>)
    ensures
        ({
            let m = merge_result_spec(
                src1@,
                src2@,
                opt_str_view(speaker1),
                opt_str_view(speaker2),
                remove_comments,
            );
            &&& r is Ok <==> m is Ok
            &&& r is Ok ==> r->Ok_0@ == m->Ok_0
            &&& r is Err ==> r->Err_0 == m->Err_0
        }),
{
    let lines1 = split_lines(src1);
    let lines2 = split_lines(src2);
    if !check_header(&lines1) || !check_header(&lines2) {
        return Err(VttError::Format);
    }
    let tag1 = make_voice_tag(speaker1);
    let tag2 = make_voice_tag(speaker2);
    let blocks1 = match parse_blocks(&lines1, &tag1, remove_comments) {
        Ok(b) => b,
        Err(e) => {
            return Err(e);
        },
    };
    let blocks2 = match parse_blocks(&lines2, &tag2, remove_comments) {
        Ok(b) => b,
        Err(e) => {
            return Err(e);
        },
    };
    let merged = merge_blocks(blocks1, blocks2);
    Ok(render_transcript(&merged))
}

} // verus!
