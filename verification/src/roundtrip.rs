//! The round-trip laws: a rendered transcript, read back as a source with
//! no speaker name, parses to blocks that keep their timing lines, keys and
//! order — each block's old voice tag stands embedded at the front of its
//! re-trimmed text — and for untagged blocks a whole no-op pass through the
//! tool reproduces the input text unchanged.

use vstd::prelude::*;
use crate::VttError;
use crate::block::BlockView;
use crate::block::block_wf;
use crate::block::is_annotation;
use crate::block::tagged_text;
use crate::block::voice_tag_spec;
use crate::merge::lemma_merge_empty;
use crate::merge::merge_spec;
use crate::merge_result_spec;
use crate::parser::body_lines;
use crate::parser::head_join;
use crate::parser::header_chars;
use crate::parser::header_ok;
use crate::parser::parse_lines_spec;
use crate::parser::parse_source_spec;
use crate::render::lemma_render_blocks_front;
use crate::render::render_blocks_spec;
use crate::render::render_transcript_spec;
use crate::text::arrow_at;
use crate::text::first_nl;
use crate::text::has_arrow;
use crate::text::is_blank;
use crate::text::is_space_char;
use crate::text::lemma_first_nl_props;
use crate::text::lemma_split_prepend_line;
use crate::text::lemma_trim_drops_trailing_newline;
use crate::text::lemma_trimmed_ends;
use crate::text::split_lines_spec;
use crate::text::trim_end_spec;
use crate::text::trim_spec;
use crate::text::trim_start_spec;
use crate::timekey::time_key_of;

verus! {

/// Body text the parser re-accumulates verbatim: every one of its lines is
/// non-blank and free of the `-->` marker.
pub open spec fn text_lines_ok(t: Seq<char>) -> bool
    decreases t.len(),
{
    let k = first_nl(t) as int;
    if k >= t.len() {
        !is_blank(t) && !has_arrow(t)
    } else {
        !is_blank(t.take(k)) && !has_arrow(t.take(k)) && text_lines_ok(t.skip(k + 1))
    }
}

/// A block a rendering can reproduce: well formed, its timing line trimmed
/// and free of newlines, its voice tag free of newlines, trimmed body text
/// whose lines the parser re-accumulates, and a tagged text that carries no
/// timing marker and that the annotation filter keeps.
pub open spec fn round_trip_block(b: BlockView, rm: bool) -> bool {
    &&& block_wf(b)
    &&& has_arrow(b.timing_line)
    &&& trim_spec(b.timing_line) == b.timing_line
    &&& forall|i: int| 0 <= i < b.timing_line.len() ==> #[trigger] b.timing_line[i] != '\n'
    &&& forall|i: int| 0 <= i < b.source_tag.len() ==> #[trigger] b.source_tag[i] != '\n'
    &&& trim_spec(b.text) == b.text
    &&& text_lines_ok(b.text)
    &&& !has_arrow(tagged_text(b.source_tag, b.text))
    &&& !is_annotation(trim_spec(tagged_text(b.source_tag, b.text)), rm)
}

/// What one re-parse makes of a rendered block: the timing line and key
/// survive, the voice tag is folded into the re-trimmed text, and the new
/// tag is empty.
pub open spec fn reparsed_block(b: BlockView) -> BlockView {
    BlockView {
        timing_line: b.timing_line,
        time_key: b.time_key,
        text: trim_spec(tagged_text(b.source_tag, b.text)),
        source_tag: Seq::empty(),
    }
}

/// Every block of a list after one re-parse.
pub open spec fn reparsed_all(bs: Seq<BlockView>) -> Seq<BlockView> {
    bs.map_values(|b: BlockView| reparsed_block(b))
}

/// Text whose lines are acceptable is itself neither empty nor blank.
proof fn lemma_text_nonblank(t: Seq<char>)
    requires
        text_lines_ok(t),
    ensures
        !is_blank(t),
        t.len() > 0,
{
    lemma_first_nl_props(t);
    let k = first_nl(t) as int;
    if k < t.len() {
        assert(!is_blank(t.take(k)));
        assert(exists|j: int|
            0 <= j < t.take(k).len() && !is_space_char(#[trigger] t.take(k)[j]));
        let j = choose|j: int| 0 <= j < t.take(k).len() && !is_space_char(#[trigger] t.take(k)[j]);
        assert(t[j] == t.take(k)[j]);
    }
}

/// The first newline of a string with a newline-free prefix lies past it.
proof fn lemma_first_nl_prepend(p: Seq<char>, t: Seq<char>)
    requires
        forall|i: int| 0 <= i < p.len() ==> #[trigger] p[i] != '\n',
    ensures
        first_nl(p + t) == p.len() + first_nl(t),
    decreases p.len(),
{
    if p.len() == 0 {
        assert(p + t =~= t);
    } else {
        assert((p + t)[0] == p[0]);
        assert((p + t).drop_first() =~= p.drop_first() + t);
        lemma_first_nl_prepend(p.drop_first(), t);
    }
}

/// A newline-free prefix joins the first line of acceptable text without
/// breaking any of its lines, as long as the whole stays marker-free.
proof fn lemma_text_lines_ok_prepend(p: Seq<char>, t: Seq<char>)
    requires
        forall|i: int| 0 <= i < p.len() ==> #[trigger] p[i] != '\n',
        text_lines_ok(t),
        !has_arrow(p + t),
    ensures
        text_lines_ok(p + t),
{
    let s = p + t;
    lemma_first_nl_prepend(p, t);
    lemma_first_nl_props(t);
    let k = first_nl(t) as int;
    let pk = p.len() as int;
    if k >= t.len() {
        assert(!is_blank(t) && !has_arrow(t));
        assert(exists|j: int| 0 <= j < t.len() && !is_space_char(#[trigger] t[j]));
        let j = choose|j: int| 0 <= j < t.len() && !is_space_char(#[trigger] t[j]);
        assert(s[pk + j] == t[j]);
        assert(!is_blank(s));
    } else {
        assert(!is_blank(t.take(k)) && !has_arrow(t.take(k)) && text_lines_ok(t.skip(k + 1)));
        let seg = p + t.take(k);
        assert(s.take(pk + k) =~= seg);
        assert(s.skip(pk + k + 1) =~= t.skip(k + 1));
        assert(exists|j: int|
            0 <= j < t.take(k).len() && !is_space_char(#[trigger] t.take(k)[j]));
        let j = choose|j: int| 0 <= j < t.take(k).len() && !is_space_char(#[trigger] t.take(k)[j]);
        assert(seg[pk + j] == t.take(k)[j]);
        assert(!is_blank(seg));
        assert(!has_arrow(seg)) by {
            if has_arrow(seg) {
                let i = choose|i: int| arrow_at(seg, i);
                assert(seg[i] == s[i] && seg[i + 1] == s[i + 1] && seg[i + 2] == s[i + 2]);
                assert(arrow_at(s, i));
            }
        }
    }
}

/// Scanning the lines of `u` followed by a newline accumulates `u` and that
/// newline onto the pending block's text.
proof fn lemma_consume_text(
    u: Seq<char>,
    x: Seq<char>,
    t: Seq<char>,
    a: Seq<char>,
    tag: Seq<char>,
    rm: bool,
)
    requires
        text_lines_ok(u),
    ensures
        parse_lines_spec(split_lines_spec(u + seq!['\n'] + x), Some(t), a, tag, rm)
            == parse_lines_spec(split_lines_spec(x), Some(t), a + u + seq!['\n'], tag, rm),
    decreases u.len(),
{
    lemma_first_nl_props(u);
    let k = first_nl(u) as int;
    if k >= u.len() {
        assert(!is_blank(u) && !has_arrow(u));
        lemma_split_prepend_line(u, x);
        let lns = seq![u] + split_lines_spec(x);
        assert(lns[0] == u);
        assert(lns.drop_first() =~= split_lines_spec(x));
        assert(parse_lines_spec(lns, Some(t), a, tag, rm) == parse_lines_spec(
            split_lines_spec(x),
            Some(t),
            a + u + seq!['\n'],
            tag,
            rm,
        ));
    } else {
        let u1 = u.take(k);
        let u2 = u.skip(k + 1);
        assert(!is_blank(u1) && !has_arrow(u1) && text_lines_ok(u2));
        assert(forall|j: int| 0 <= j < u1.len() ==> #[trigger] u1[j] != '\n');
        assert(u + seq!['\n'] + x =~= u1 + seq!['\n'] + (u2 + seq!['\n'] + x));
        lemma_split_prepend_line(u1, u2 + seq!['\n'] + x);
        let lns = seq![u1] + split_lines_spec(u2 + seq!['\n'] + x);
        assert(split_lines_spec(u + seq!['\n'] + x) == lns);
        assert(lns[0] == u1);
        assert(lns.drop_first() =~= split_lines_spec(u2 + seq!['\n'] + x));
        assert(parse_lines_spec(lns, Some(t), a, tag, rm) == parse_lines_spec(
            split_lines_spec(u2 + seq!['\n'] + x),
            Some(t),
            a + u1 + seq!['\n'],
            tag,
            rm,
        ));
        lemma_consume_text(u2, x, t, a + u1 + seq!['\n'], tag, rm);
        assert((a + u1 + seq!['\n']) + u2 + seq!['\n'] =~= a + u + seq!['\n']);
    }
}

#[verifier::rlimit(50)]
proof fn lemma_parse_rendered_lines(bs: Seq<BlockView>, rm: bool)
    requires
        forall|i: int| 0 <= i < bs.len() ==> round_trip_block(#[trigger] bs[i], rm),
    ensures
        parse_lines_spec(
            split_lines_spec(render_blocks_spec(bs)),
            None,
            Seq::empty(),
            Seq::empty(),
            rm,
        ) == Some(reparsed_all(bs)),
    decreases bs.len(),
{
    if bs.len() == 0 {
        let l0 = Seq::<char>::empty();
        let lines = split_lines_spec(l0);
        assert(render_blocks_spec(bs) == l0);
        assert(lines == seq![l0]);
        assert(is_blank(l0));
        assert(lines.drop_first() =~= Seq::<Seq<char>>::empty());
        assert(parse_lines_spec(lines.drop_first(), None, Seq::empty(), Seq::empty(), rm) == Some(
            Seq::<BlockView>::empty(),
        ));
        assert(parse_lines_spec(lines, None, Seq::empty(), Seq::empty(), rm) == Some(
            Seq::<BlockView>::empty() + Seq::<BlockView>::empty(),
        ));
        assert(Seq::<BlockView>::empty() + Seq::<BlockView>::empty() =~= reparsed_all(bs));
    } else {
        let b = bs[0];
        let rest = bs.drop_first();
        lemma_render_blocks_front(bs);
        let rr = render_blocks_spec(rest);
        let line1 = b.timing_line;
        let line2 = tagged_text(b.source_tag, b.text);
        let x2 = Seq::<char>::empty() + seq!['\n'] + rr;
        let rest1 = line2 + seq!['\n'] + x2;
        let whole = render_blocks_spec(bs);
        assert(whole =~= line1 + seq!['\n'] + rest1);
        lemma_split_prepend_line(line1, rest1);
        let lines = split_lines_spec(whole);
        assert(lines == seq![line1] + split_lines_spec(rest1));
        // The timing line is not blank: it holds the marker's dashes.
        assert(!is_blank(line1)) by {
            let i = choose|i: int| arrow_at(line1, i);
            assert(line1[i] == '-');
            assert(!is_space_char('-'));
        }
        assert(lines[0] == line1);
        assert(lines.drop_first() =~= split_lines_spec(rest1));
        assert(trim_spec(line1) == line1);
        assert(parse_lines_spec(lines, None, Seq::empty(), Seq::empty(), rm) == parse_lines_spec(
            split_lines_spec(rest1),
            Some(line1),
            Seq::empty(),
            Seq::empty(),
            rm,
        ));
        // The tagged text's lines are re-accumulated onto the pending block.
        let p = b.source_tag + seq![' '];
        assert(forall|i: int| 0 <= i < p.len() ==> #[trigger] p[i] != '\n') by {
            assert(forall|i: int|
                0 <= i < b.source_tag.len() ==> #[trigger] p[i] == b.source_tag[i]);
            assert(p[p.len() - 1] == ' ');
        }
        assert(line2 =~= p + b.text);
        lemma_text_lines_ok_prepend(p, b.text);
        assert(text_lines_ok(line2));
        lemma_consume_text(line2, x2, line1, Seq::empty(), Seq::empty(), rm);
        let acc = Seq::<char>::empty() + line2 + seq!['\n'];
        // The blank line finalizes the block.
        lemma_split_prepend_line(Seq::<char>::empty(), rr);
        let lx = split_lines_spec(x2);
        assert(lx == seq![Seq::<char>::empty()] + split_lines_spec(rr));
        assert(lx[0] =~= Seq::<char>::empty());
        assert(is_blank(lx[0]));
        assert(lx.drop_first() =~= split_lines_spec(rr));
        // Trimming the accumulated text folds the tag into the body.
        assert(acc =~= line2 + seq!['\n']);
        lemma_trim_drops_trailing_newline(line2);
        assert(trim_spec(acc) == trim_spec(line2));
        let bv = BlockView {
            timing_line: line1,
            time_key: time_key_of(line1),
            text: trim_spec(acc),
            source_tag: Seq::empty(),
        };
        assert(bv == reparsed_block(b));
        assert(forall|i: int| 0 <= i < rest.len() ==> round_trip_block(#[trigger] rest[i], rm)) by {
            assert(forall|i: int| 0 <= i < rest.len() ==> rest[i] == bs[i + 1]);
        }
        lemma_parse_rendered_lines(rest, rm);
        assert(parse_lines_spec(lx, Some(line1), acc, Seq::empty(), rm) == Some(
            seq![bv] + reparsed_all(rest),
        ));
        assert(seq![bv] + reparsed_all(rest) =~= reparsed_all(bs)) by {
            assert(forall|i: int| 0 <= i < rest.len() ==> rest[i] == bs[i + 1]);
        }
    }
}

/// Feeding a rendered transcript back in as a source with no speaker name
/// keeps every block's timing line, key and place: the header framing
/// passes and the parser yields the rendered blocks, each with its old
/// voice tag folded into its re-trimmed text.
pub proof fn lemma_render_parse_round_trip(bs: Seq<BlockView>, rm: bool)
    requires
        forall|i: int| 0 <= i < bs.len() ==> round_trip_block(#[trigger] bs[i], rm),
    ensures
        header_ok(split_lines_spec(render_transcript_spec(bs))),
        parse_source_spec(split_lines_spec(render_transcript_spec(bs)), Seq::<char>::empty(), rm)
            == Some(reparsed_all(bs)),
{
    let w = header_chars();
    let body = render_blocks_spec(bs);
    let whole = render_transcript_spec(bs);
    assert(whole =~= w + seq!['\n'] + (Seq::<char>::empty() + seq!['\n'] + body));
    assert(forall|i: int| 0 <= i < w.len() ==> #[trigger] w[i] != '\n') by {
        assert(w[0] == 'W');
        assert(w[1] == 'E');
        assert(w[2] == 'B');
        assert(w[3] == 'V');
        assert(w[4] == 'T');
        assert(w[5] == 'T');
    }
    lemma_split_prepend_line(w, Seq::<char>::empty() + seq!['\n'] + body);
    lemma_split_prepend_line(Seq::<char>::empty(), body);
    let lines = split_lines_spec(whole);
    assert(lines =~= seq![w, Seq::<char>::empty()] + split_lines_spec(body));
    assert(lines[0] == w);
    assert(lines[1] =~= Seq::<char>::empty());
    let hj = head_join(lines);
    assert(hj =~= w + seq!['\n']);
    assert(hj[0] == 'W');
    assert(!is_space_char('W'));
    assert(trim_start_spec(hj) == hj);
    assert(hj.last() == '\n');
    assert(hj.drop_last() =~= w);
    assert(w.last() == 'T');
    assert(!is_space_char('T'));
    assert(trim_end_spec(w) == w);
    assert(trim_end_spec(hj) == trim_end_spec(hj.drop_last()));
    assert(trim_end_spec(hj) == w);
    assert(header_ok(lines));
    assert(body_lines(lines) =~= split_lines_spec(body));
    lemma_parse_rendered_lines(bs, rm);
}

/// A no-op pass keeps the blocks: merging a rendered transcript with an
/// empty rendered transcript, both without speaker names, succeeds, and
/// the output renders the same blocks in the same order, each timing line
/// and key unchanged, each old voice tag embedded in its re-trimmed text.
pub proof fn lemma_no_op_merge_keeps_blocks(bs: Seq<BlockView>, rm: bool)
    requires
        forall|i: int| 0 <= i < bs.len() ==> round_trip_block(#[trigger] bs[i], rm),
    ensures
        merge_result_spec(
            render_transcript_spec(bs),
            render_transcript_spec(Seq::<BlockView>::empty()),
            None,
            None,
            rm,
        ) == Ok::<Seq<char>, VttError>(render_transcript_spec(reparsed_all(bs))),
{
    lemma_render_parse_round_trip(bs, rm);
    lemma_render_parse_round_trip(Seq::<BlockView>::empty(), rm);
    assert(reparsed_all(Seq::<BlockView>::empty()) =~= Seq::<BlockView>::empty());
    lemma_merge_empty(reparsed_all(bs));
    assert(voice_tag_spec(None) == Seq::<char>::empty());
    assert(merge_spec(reparsed_all(bs), Seq::<BlockView>::empty()) == reparsed_all(bs));
}

/// An untagged block comes back from a re-parse unchanged.
proof fn lemma_reparsed_untagged(b: BlockView)
    requires
        b.source_tag == Seq::<char>::empty(),
        trim_spec(b.text) == b.text,
        text_lines_ok(b.text),
    ensures
        reparsed_block(b) == b,
{
    lemma_text_nonblank(b.text);
    lemma_trimmed_ends(b.text);
    let tagged = tagged_text(b.source_tag, b.text);
    assert(tagged[0] == ' ');
    assert(is_space_char(' '));
    assert(tagged.drop_first() =~= b.text);
    assert(trim_start_spec(tagged) == trim_start_spec(tagged.drop_first()));
    assert(trim_start_spec(b.text) == b.text);
    assert(trim_end_spec(b.text) == b.text);
    assert(trim_spec(tagged) == b.text);
}

/// A whole no-op pass through the tool is the identity on untagged
/// transcripts: merging a rendered transcript with an empty rendered one,
/// no speaker names anywhere, returns the input text unchanged.
pub proof fn lemma_no_op_merge_idempotent(bs: Seq<BlockView>, rm: bool)
    requires
        forall|i: int| 0 <= i < bs.len() ==> round_trip_block(#[trigger] bs[i], rm),
        forall|i: int| 0 <= i < bs.len() ==> #[trigger] bs[i].source_tag == Seq::<char>::empty(),
    ensures
        merge_result_spec(
            render_transcript_spec(bs),
            render_transcript_spec(Seq::<BlockView>::empty()),
            None,
            None,
            rm,
        ) == Ok::<Seq<char>, VttError>(render_transcript_spec(bs)),
{
    lemma_no_op_merge_keeps_blocks(bs, rm);
    assert forall|i: int| 0 <= i < bs.len() implies #[trigger] reparsed_all(bs)[i] == bs[i] by {
        lemma_reparsed_untagged(bs[i]);
    }
    assert(reparsed_all(bs) =~= bs);
}

} // verus!
