//! The timed text block: the unit a transcript is made of, together with
//! the annotation filter and the speaker voice tag.

use vstd::prelude::*;
use vstd::string::StrSliceExecFns;
use vstd::string::StringExecFns;
use crate::timekey::time_key_of;
use crate::timekey::timing_valid;

verus! {

/// One timed subtitle unit.
pub struct Block {
    /// The timing line (`start --> end[ settings]`), trimmed, otherwise verbatim.
    pub timing_line: String,
    /// The ordering key derived from the timing line's start timestamp.
    pub time_key: usize,
    /// The block's body text, trimmed at both ends.
    pub text: String,
    /// The voice tag of the block's source; empty when no speaker was named.
    pub source_tag: String,
}

/// The mathematical image of a [`Block`].
pub struct BlockView {
    pub timing_line: Seq<char>,
    pub time_key: int,
    pub text: Seq<char>,
    pub source_tag: Seq<char>,
}

impl View for Block {
    type V = BlockView;

    open spec fn view(&self) -> BlockView {
        BlockView {
            timing_line: self.timing_line@,
            time_key: self.time_key as int,
            text: self.text@,
            source_tag: self.source_tag@,
        }
    }
}

impl DeepView for Block {
    type V = BlockView;

    open spec fn deep_view(&self) -> BlockView {
        self.view()
    }
}

/// A block is well formed when its timing line is valid and the stored key
/// is the one that line denotes.
pub open spec fn block_wf(b: BlockView) -> bool {
    &&& timing_valid(b.timing_line)
    &&& b.time_key == time_key_of(b.timing_line)
}

/// A block's trimmed text marks it as a discardable non-speech annotation:
/// bracketed text is dropped unconditionally, while asterisk-fenced text of
/// more than two characters is dropped only when comment removal is on.
/// The removal flag deliberately gates only the asterisk case.
pub open spec fn is_annotation(t: Seq<char>, remove_comments: bool) -> bool {
    ||| (t.len() > 0 && t[0] == '[' && t.last() == ']')
    ||| (t.len() > 0 && t[0] == '*' && t.last() == '*' && t.len() > 2 && remove_comments)
}

/// Whether the trimmed text `t` is a discardable annotation.
pub fn is_annotation_text(t: &str, remove_comments: bool) -> (r: bool)
    ensures
        r == is_annotation(t@, remove_comments),
{
    let n = t.unicode_len();
    if n == 0 {
        return false;
    }
    let first = t.get_char(0);
    let last = t.get_char(n - 1);
    (first == '[' && last == ']') || (first == '*' && last == '*' && n > 2 && remove_comments)
}

/// The view of an optional speaker name.
pub open spec fn opt_str_view(name: &Option<String>) -> Option<Seq<char>> {
    match name {
        Some(s) => Some(s@),
        None => None,
    }
}

/// The voice tag for an optional speaker name: `<v name>`, or the empty
/// string when no name was supplied.
pub open spec fn voice_tag_spec(name: Option<Seq<char>>) -> Seq<char> {
    match name {
        Some(n) => seq!['<', 'v', ' '] + n + seq!['>'],
        None => Seq::empty(),
    }
}

/// A block's output text: the voice tag, one separating space (kept even
/// when the tag is empty), then the body text.
pub open spec fn tagged_text(tag: Seq<char>, text: Seq<char>) -> Seq<char> {
    tag + seq![' '] + text
}

/// Builds the voice tag for a source's optional speaker name.
pub fn make_voice_tag(name: &Option<String>) -> (r: String)
    ensures
        r@ == voice_tag_spec(opt_str_view(name)),
{
    match name {
        Some(n) => {
            let mut s = String::from_str("<v ");
            s.append(n.as_str());
            s.append(">");
            proof {
                reveal_strlit("<v ");
                reveal_strlit(">");
                assert(s@ =~= seq!['<', 'v', ' '] + n@ + seq!['>']);
            }
            s
        },
        None => {
            let s = String::new();
            proof {
                assert(s@ =~= Seq::<char>::empty());
            }
            s
        },
    }
}

} // verus!
