//! The serializer: renders the merged block list back into transcript
//! text, prefixed with the same header framing the inputs are checked for.

use vstd::prelude::*;
use vstd::string::StringExecFns;
use crate::block::Block;
use crate::block::BlockView;
use crate::block::tagged_text;
use crate::parser::header_chars;

verus! {

/// One rendered block: its timing line, a newline, its tagged text, a
/// newline, and a blank line.
pub open spec fn render_block_spec(b: BlockView) -> Seq<char> {
    b.timing_line + seq!['\n'] + tagged_text(b.source_tag, b.text) + seq!['\n', '\n']
}

/// The rendered blocks, in list order.
pub open spec fn render_blocks_spec(bs: Seq<BlockView>) -> Seq<char>
    decreases bs.len(),
{
    if bs.len() == 0 {
        Seq::empty()
    } else {
        render_blocks_spec(bs.drop_last()) + render_block_spec(bs.last())
    }
}

/// Rendering goes block by block from the front as well.
pub proof fn lemma_render_blocks_front(bs: Seq<BlockView>)
    requires
        bs.len() > 0,
    ensures
        render_blocks_spec(bs) == render_block_spec(bs[0]) + render_blocks_spec(bs.drop_first()),
    decreases bs.len(),
{
    if bs.len() == 1 {
        assert(bs.drop_last() =~= Seq::<BlockView>::empty());
        assert(bs.drop_first() =~= Seq::<BlockView>::empty());
        assert(bs.last() == bs[0]);
        assert(Seq::<char>::empty() + render_block_spec(bs[0]) =~= render_block_spec(bs[0]));
        assert(render_block_spec(bs[0]) + Seq::<char>::empty() =~= render_block_spec(bs[0]));
    } else {
        let d = bs.drop_last();
        lemma_render_blocks_front(d);
        assert(d[0] == bs[0]);
        assert(bs.drop_first().drop_last() =~= d.drop_first());
        assert(bs.drop_first().last() == bs.last());
        assert(bs.drop_first().len() > 0);
        assert((render_block_spec(bs[0]) + render_blocks_spec(d.drop_first())) + render_block_spec(
            bs.last(),
        ) =~= render_block_spec(bs[0]) + (render_blocks_spec(d.drop_first()) + render_block_spec(
            bs.last(),
        )));
    }
}

/// The whole rendered transcript: the header line, a blank line, then the
/// blocks.
pub open spec fn render_transcript_spec(bs: Seq<BlockView>) -> Seq<char> {
    header_chars() + seq!['\n', '\n'] + render_blocks_spec(bs)
}

/// Renders the merged block list as transcript text.
pub fn render_transcript(blocks: &Vec<Block>) -> (r: String)
    ensures
        r@ == render_transcript_spec(blocks.deep_view()),
{
    let ghost bsv = blocks.deep_view();
    let mut out = String::from_str("WEBVTT\n\n");
    proof {
        reveal_strlit("WEBVTT\n\n");
        assert(bsv.take(0) =~= Seq::<BlockView>::empty());
        assert(out@ =~= header_chars() + seq!['\n', '\n']);
    }
    let n = blocks.len();
    let mut i: usize = 0;
    while i < n
        invariant
            n == bsv.len(),
            i <= n,
            bsv == blocks.deep_view(),
            out@ == header_chars() + seq!['\n', '\n'] + render_blocks_spec(bsv.take(i as int)),
        decreases n - i,
    {
        let ghost prev = out@;
        let b = &blocks[i];
        out.append(b.timing_line.as_str());
        out.append("\n");
        out.append(b.source_tag.as_str());
        out.append(" ");
        out.append(b.text.as_str());
        out.append("\n\n");
        proof {
            reveal_strlit("\n");
            reveal_strlit(" ");
            reveal_strlit("\n\n");
            assert(bsv.take(i as int + 1).drop_last() =~= bsv.take(i as int));
            assert(bsv.take(i as int + 1).last() == bsv[i as int]);
            assert(out@ =~= prev + render_block_spec(bsv[i as int]));
            assert(out@ =~= header_chars() + seq!['\n', '\n'] + render_blocks_spec(
                bsv.take(i as int + 1),
            ));
        }
        i = i + 1;
    }
    proof {
        assert(bsv.take(n as int) =~= bsv);
    }
    out
}

} // verus!
