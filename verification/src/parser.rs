//! The block parser: header validation and the line-oriented state machine
//! that turns a stream's lines into structured, filtered, tagged blocks.
//!
//! While scanning, the state is a pending timing line (absent or present)
//! and the accumulated body text. A blank line ends the current block; a
//! line holding `-->` becomes the pending timing line (a second one
//! silently overwrites the first); any other line is body text when a
//! timing line is pending and is discarded otherwise (this drops cue
//! identifier lines). The end of the stream ends a block exactly as a
//! blank line would. Each finalized block gets its ordering key before the
//! annotation filter decides whether it is kept.

use vstd::prelude::*;
use vstd::string::StrSliceExecFns;
use vstd::string::StringExecFns;
use crate::VttError;
use crate::block::Block;
use crate::block::BlockView;
use crate::block::block_wf;
use crate::block::is_annotation;
use crate::block::is_annotation_text;
use crate::block::opt_str_view;
use crate::text::has_arrow;
use crate::text::is_blank;
use crate::text::is_blank_str;
use crate::text::contains_arrow;
use crate::text::trim_spec;
use crate::text::trim_str;
use crate::timekey::get_clue_number;
use crate::timekey::time_key_of;
use crate::timekey::timing_valid;

verus! {

/// The header token every transcript must start with.
pub open spec fn header_chars() -> Seq<char> {
    seq!['W', 'E', 'B', 'V', 'T', 'T']
}

/// The first two lines of a stream, joined by the newline that separated
/// them in the raw text.
pub open spec fn head_join(lines: Seq<Seq<char>>) -> Seq<char> {
    if lines.len() == 0 {
        Seq::empty()
    } else if lines.len() == 1 {
        lines[0]
    } else {
        lines[0] + seq!['\n'] + lines[1]
    }
}

/// A stream's header is in order when its first two lines, joined and then
/// trimmed of surrounding whitespace, read exactly `WEBVTT`. This requires
/// the second line to be blank.
pub open spec fn header_ok(lines: Seq<Seq<char>>) -> bool {
    trim_spec(head_join(lines)) == header_chars()
}

/// Validates the header framing of a stream given as its lines.
pub fn check_header(lines: &Vec<String>) -> (r: bool)
    ensures
        r == header_ok(lines.deep_view()),
{
    let mut buff = String::new();
    if lines.len() >= 1 {
        buff.append(lines[0].as_str());
    }
    if lines.len() >= 2 {
        buff.append("\n");
        buff.append(lines[1].as_str());
    }
    proof {
        reveal_strlit("\n");
        assert(buff@ =~= head_join(lines.deep_view()));
    }
    let t = trim_str(buff.as_str());
    let token = String::from_str("WEBVTT");
    proof {
        reveal_strlit("WEBVTT");
        assert(token@ =~= header_chars());
    }
    let owned = t.to_owned();
    owned == token
}

/// What one end-of-block event (a blank line or the end of the stream)
/// contributes to the output: nothing when no timing line is pending or
/// the block is a filtered annotation, one block otherwise, and a parse
/// failure when the pending timing line is invalid.
pub open spec fn finalize_spec(
    pending: Option<Seq<char>>,
    acc: Seq<char>,
    tag: Seq<char>,
    rm: bool,
) -> Option<Seq<BlockView>> {
    match pending {
        None => Some(Seq::empty()),
        Some(timing) => if !timing_valid(timing) {
            None
        } else if is_annotation(trim_spec(acc), rm) {
            Some(Seq::empty())
        } else {
            Some(
                seq![
                    BlockView {
                        timing_line: timing,
                        time_key: time_key_of(timing),
                        text: trim_spec(acc),
                        source_tag: tag,
                    }
                ],
            )
        },
    }
}

/// The blocks the parser yields from `lines`, starting with pending timing
/// line `pending` and accumulated text `acc`; `None` when a timing line
/// fails to parse.
pub open spec fn parse_lines_spec(
    lines: Seq<Seq<char>>,
    pending: Option<Seq<char>>,
    acc: Seq<char>,
    tag: Seq<char>,
    rm: bool,
) -> Option<Seq<BlockView>>
    decreases lines.len(),
{
    if lines.len() == 0 {
        finalize_spec(pending, acc, tag, rm)
    } else {
        let l = lines[0];
        if is_blank(l) {
            match finalize_spec(pending, acc, tag, rm) {
                None => None,
                Some(bs) => match parse_lines_spec(
                    lines.drop_first(),
                    None,
                    Seq::empty(),
                    tag,
                    rm,
                ) {
                    None => None,
                    Some(rest) => Some(bs + rest),
                },
            }
        } else if has_arrow(l) {
            parse_lines_spec(lines.drop_first(), Some(trim_spec(l)), acc, tag, rm)
        } else if pending is Some {
            parse_lines_spec(lines.drop_first(), pending, acc + l + seq!['\n'], tag, rm)
        } else {
            parse_lines_spec(lines.drop_first(), pending, acc, tag, rm)
        }
    }
}

/// A stream's body: its lines after the two header lines.
pub open spec fn body_lines(lines: Seq<Seq<char>>) -> Seq<Seq<char>> {
    if lines.len() < 2 {
        Seq::empty()
    } else {
        lines.skip(2)
    }
}

/// The blocks of one source stream: the body lines parsed from a fresh
/// state, each surviving block tagged with the source's voice tag.
pub open spec fn parse_source_spec(lines: Seq<Seq<char>>, tag: Seq<char>, rm: bool) -> Option<
    Seq<BlockView>,
> {
    parse_lines_spec(body_lines(lines), None, Seq::empty(), tag, rm)
}

proof fn lemma_parse_lines_wf(
    lines: Seq<Seq<char>>,
    pending: Option<Seq<char>>,
    acc: Seq<char>,
    tag: Seq<char>,
    rm: bool,
)
    requires
        parse_lines_spec(lines, pending, acc, tag, rm) is Some,
    ensures
        forall|i: int|
            0 <= i < parse_lines_spec(lines, pending, acc, tag, rm)->Some_0.len() ==> block_wf(
                #[trigger] parse_lines_spec(lines, pending, acc, tag, rm)->Some_0[i],
            ),
    decreases lines.len(),
{
    if lines.len() == 0 {
    } else {
        let l = lines[0];
        if is_blank(l) {
            lemma_parse_lines_wf(lines.drop_first(), None, Seq::empty(), tag, rm);
        } else if has_arrow(l) {
            lemma_parse_lines_wf(lines.drop_first(), Some(trim_spec(l)), acc, tag, rm);
        } else if pending is Some {
            lemma_parse_lines_wf(lines.drop_first(), pending, acc + l + seq!['\n'], tag, rm);
        } else {
            lemma_parse_lines_wf(lines.drop_first(), pending, acc, tag, rm);
        }
    }
}

/// Every block the parser yields is well formed: its stored ordering key is
/// exactly the digits-only value of its timing line's start timestamp.
pub proof fn lemma_parsed_blocks_well_formed(lines: Seq<Seq<char>>, tag: Seq<char>, rm: bool)
    requires
        parse_source_spec(lines, tag, rm) is Some,
    ensures
        forall|i: int|
            0 <= i < parse_source_spec(lines, tag, rm)->Some_0.len() ==> block_wf(
                #[trigger] parse_source_spec(lines, tag, rm)->Some_0[i],
            ),
{
    lemma_parse_lines_wf(body_lines(lines), None, Seq::empty(), tag, rm);
}

spec fn with_prefix(prefix: Seq<BlockView>, rest: Option<Seq<BlockView>>) -> Option<
    Seq<BlockView>,
> {
    match rest {
        None => None,
        Some(bs) => Some(prefix + bs),
    }
}

/// Finalizes the current block into `out`, as a blank line or the end of
/// the stream does.
fn finalize_step(
    pending: &Option<String>,
    acc: &String,
    tag: &String,
    rm: bool,
    out: &mut Vec<Block>,
) -> (r: Result<(), VttError>)
    ensures
        ({
            let m = finalize_spec(opt_str_view(pending), acc@, tag@, rm);
            &&& r is Ok <==> m is Some
            &&& r is Ok ==> final(out).deep_view() == old(out).deep_view() + m->Some_0
            &&& r is Err ==> r->Err_0 == VttError::Parse
        }),
{
    match pending {
        None => {
            proof {
                assert(out.deep_view() =~= old(out).deep_view() + Seq::<BlockView>::empty());
            }
            Ok(())
        },
        Some(timing) => {
            match get_clue_number(timing.as_str()) {
                Err(_) => Err(VttError::Parse),
                Ok(key) => {
                    let t = trim_str(acc.as_str());
                    if is_annotation_text(t, rm) {
                        proof {
                            assert(out.deep_view() =~= old(out).deep_view()
                                + Seq::<BlockView>::empty());
                        }
                        Ok(())
                    } else {
                        let ghost prev = out.deep_view();
                        let b = Block {
                            timing_line: timing.clone(),
                            time_key: key,
                            text: t.to_owned(),
                            source_tag: tag.clone(),
                        };
                        let ghost bv = b@;
                        out.push(b);
                        proof {
                            assert(out.deep_view() =~= prev + seq![bv]);
                        }
                        Ok(())
                    }
                },
            }
        },
    }
}

/// Parses one source stream, given as its lines (header lines included),
/// into its filtered blocks, each tagged with the source's voice tag.
pub fn parse_blocks(lines: &Vec<String>, tag: &String, rm: bool) -> (r: Result<
    Vec<Block>,
    VttError,
>)
    ensures
        ({
            let m = parse_source_spec(lines.deep_view(), tag@, rm);
            &&& r is Ok <==> m is Some
            &&& r is Ok ==> r->Ok_0.deep_view() == m->Some_0
            &&& r is Err ==> r->Err_0 == VttError::Parse
        }),
{
    let ghost linesv = lines.deep_view();
    let n = lines.len();
    let mut i: usize = if n < 2 {
        n
    } else {
        2
    };
    let mut out: Vec<Block> = Vec::new();
    let mut pending: Option<String> = None;
    let mut acc = String::new();
    proof {
        assert(body_lines(linesv) =~= linesv.skip(i as int));
        assert(out.deep_view() =~= Seq::<BlockView>::empty());
        assert(acc@ =~= Seq::<char>::empty());
    }
    while i < n
        invariant
            n == linesv.len(),
            i <= n,
            linesv == lines.deep_view(),
            parse_source_spec(linesv, tag@, rm) == with_prefix(
                out.deep_view(),
                parse_lines_spec(
                    linesv.skip(i as int),
                    opt_str_view(&pending),
                    acc@,
                    tag@,
                    rm,
                ),
            ),
        decreases n - i,
    {
        let ghost rem = linesv.skip(i as int);
        proof {
            assert(rem[0] == linesv[i as int]);
            assert(rem.drop_first() =~= linesv.skip(i as int + 1));
        }
        let l = &lines[i];
        if is_blank_str(l.as_str()) {
            let ghost prev = out.deep_view();
            let ghost m = finalize_spec(opt_str_view(&pending), acc@, tag@, rm);
            let step = finalize_step(&pending, &acc, tag, rm, &mut out);
            match step {
                Err(e) => {
                    return Err(e);
                },
                Ok(_) => {
                    pending = None;
                    acc = String::new();
                    proof {
                        assert(acc@ =~= Seq::<char>::empty());
                        if parse_lines_spec(
                            linesv.skip(i as int + 1),
                            opt_str_view(&pending),
                            acc@,
                            tag@,
                            rm,
                        ) is Some {
                            let restbs = parse_lines_spec(
                                linesv.skip(i as int + 1),
                                opt_str_view(&pending),
                                acc@,
                                tag@,
                                rm,
                            )->Some_0;
                            assert((prev + m->Some_0) + restbs =~= prev + (m->Some_0 + restbs));
                        }
                    }
                },
            }
        } else if contains_arrow(l.as_str()) {
            let t = trim_str(l.as_str());
            pending = Some(t.to_owned());
        } else if pending.is_some() {
            let ghost accv = acc@;
            acc.append(l.as_str());
            acc.append("\n");
            proof {
                reveal_strlit("\n");
                assert(acc@ =~= accv + linesv[i as int] + seq!['\n']);
            }
        } else {
            // a non-blank line before any timing line is dropped
        }
        i = i + 1;
    }
    proof {
        assert(linesv.skip(n as int) =~= Seq::<Seq<char>>::empty());
    }
    let ghost prev = out.deep_view();
    let ghost m = finalize_spec(opt_str_view(&pending), acc@, tag@, rm);
    let step = finalize_step(&pending, &acc, tag, rm, &mut out);
    match step {
        Err(e) => Err(e),
        Ok(_) => {
            proof {
                if m is Some {
                    assert(out.deep_view() =~= prev + m->Some_0);
                }
            }
            Ok(out)
        },
    }
}

} // verus!
