//! The merge scheduler: interleaves the second source's blocks into the
//! first source's already ordered list with a forward-only cursor, never
//! re-sorting. On equal keys the incoming (second-source) block goes first.

use vstd::prelude::*;
use crate::block::Block;
use crate::block::BlockView;

verus! {

/// The position at which a block with key `key` enters `out`: the first
/// position at or after the cursor `c` whose key is at least `key`, or the
/// end of the list when no such position exists.
pub open spec fn insert_pos(out: Seq<BlockView>, c: int, key: int) -> int
    decreases out.len() - c
        when 0 <= c <= out.len()
{
    if c >= out.len() {
        out.len() as int
    } else if out[c].time_key >= key {
        c
    } else {
        insert_pos(out, c + 1, key)
    }
}

/// Feeding `bs` one block at a time into `out`, with the scan cursor at
/// `c`: each block is inserted at its position and the cursor moves there,
/// never backwards across the whole phase.
pub open spec fn merge_seq(out: Seq<BlockView>, c: int, bs: Seq<BlockView>) -> Seq<BlockView>
    decreases bs.len(),
{
    if bs.len() == 0 {
        out
    } else {
        let p = insert_pos(out, c, bs[0].time_key);
        merge_seq(out.insert(p, bs[0]), p, bs.drop_first())
    }
}

/// The merged transcript: the first source's blocks in order, with the
/// second source's blocks interleaved from a cursor that starts at the
/// front.
pub open spec fn merge_spec(first: Seq<BlockView>, second: Seq<BlockView>) -> Seq<BlockView> {
    merge_seq(first, 0, second)
}

/// The insertion position lies between the cursor and the end of the list.
pub proof fn lemma_insert_pos_range(out: Seq<BlockView>, c: int, key: int)
    requires
        0 <= c <= out.len(),
    ensures
        c <= insert_pos(out, c, key) <= out.len(),
    decreases out.len() - c,
{
    if c < out.len() && out[c].time_key < key {
        lemma_insert_pos_range(out, c + 1, key);
    }
}

proof fn lemma_merge_seq_len(out: Seq<BlockView>, c: int, bs: Seq<BlockView>)
    requires
        0 <= c <= out.len(),
    ensures
        merge_seq(out, c, bs).len() == out.len() + bs.len(),
    decreases bs.len(),
{
    if bs.len() > 0 {
        let p = insert_pos(out, c, bs[0].time_key);
        lemma_insert_pos_range(out, c, bs[0].time_key);
        lemma_merge_seq_len(out.insert(p, bs[0]), p, bs.drop_first());
    }
}

/// No block is lost or invented: the merged list's length is the number of
/// first-source blocks plus the number of second-source blocks.
pub proof fn lemma_merge_len(first: Seq<BlockView>, second: Seq<BlockView>)
    ensures
        merge_spec(first, second).len() == first.len() + second.len(),
{
    lemma_merge_seq_len(first, 0, second);
}

/// Merging an empty second source is a no-op: the first source's blocks
/// come back unchanged, in the same order.
pub proof fn lemma_merge_empty(first: Seq<BlockView>)
    ensures
        merge_spec(first, Seq::<BlockView>::empty()) == first,
{
}

/// A block list is ordered when its keys never decrease.
pub open spec fn sorted_by_key(bs: Seq<BlockView>) -> bool {
    forall|i: int, j: int|
        0 <= i <= j < bs.len() ==> #[trigger] bs[i].time_key <= #[trigger] bs[j].time_key
}

/// Every position the cursor scans over holds a key strictly below the
/// incoming one, and the scan stops at the first resident key that is not:
/// on an exact tie the incoming (second-source) block therefore stands
/// before the resident block with the same key.
pub proof fn lemma_insert_pos_scanned(out: Seq<BlockView>, c: int, key: int)
    requires
        0 <= c <= out.len(),
    ensures
        forall|i: int| c <= i < insert_pos(out, c, key) ==> #[trigger] out[i].time_key < key,
        insert_pos(out, c, key) < out.len() ==> out[insert_pos(out, c, key)].time_key >= key,
    decreases out.len() - c,
{
    if c < out.len() && out[c].time_key < key {
        lemma_insert_pos_scanned(out, c + 1, key);
    }
}

proof fn lemma_merge_seq_sorted(out: Seq<BlockView>, c: int, bs: Seq<BlockView>)
    requires
        0 <= c <= out.len(),
        sorted_by_key(out),
        sorted_by_key(bs),
        bs.len() > 0 ==> forall|i: int| 0 <= i < c ==> #[trigger] out[i].time_key <= bs[0].time_key,
    ensures
        sorted_by_key(merge_seq(out, c, bs)),
    decreases bs.len(),
{
    if bs.len() > 0 {
        let b = bs[0];
        let key = b.time_key;
        let p = insert_pos(out, c, key);
        lemma_insert_pos_range(out, c, key);
        lemma_insert_pos_scanned(out, c, key);
        let out2 = out.insert(p, b);
        assert forall|i: int, j: int|
            0 <= i <= j < out2.len() implies #[trigger] out2[i].time_key
            <= #[trigger] out2[j].time_key by {
            if i < p && j < p {
                assert(out2[i] == out[i] && out2[j] == out[j]);
            } else if i < p && j == p {
                assert(out2[i] == out[i] && out[i].time_key <= key);
            } else if i < p && j > p {
                assert(out2[i] == out[i] && out2[j] == out[j - 1]);
                assert(out[i].time_key <= key);
                if j - 1 >= p {
                    if p < out.len() {
                        assert(out[p].time_key >= key);
                        assert(out[p].time_key <= out[j - 1].time_key);
                    }
                }
            } else if i == p && j == p {
            } else if i == p && j > p {
                assert(out2[j] == out[j - 1]);
                assert(out[p].time_key >= key);
                assert(out[p].time_key <= out[j - 1].time_key);
            } else {
                assert(out2[i] == out[i - 1] && out2[j] == out[j - 1]);
            }
        }
        assert forall|i: int| 0 <= i < bs.drop_first().len() implies #[trigger] bs.drop_first()[i].time_key
            >= bs[0].time_key by {
            assert(bs.drop_first()[i] == bs[i + 1]);
        }
        if bs.drop_first().len() > 0 {
            assert forall|i: int| 0 <= i < p implies #[trigger] out2[i].time_key
                <= bs.drop_first()[0].time_key by {
                assert(out2[i] == out[i]);
                assert(out[i].time_key <= key);
                assert(bs.drop_first()[0] == bs[1]);
            }
        }
        assert(sorted_by_key(bs.drop_first()));
        lemma_merge_seq_sorted(out2, p, bs.drop_first());
    }
}

/// With both sources non-decreasing in key, the merged transcript is
/// non-decreasing in key: interleaving with the forward-only cursor never
/// breaks chronological order.
pub proof fn lemma_merge_sorted(first: Seq<BlockView>, second: Seq<BlockView>)
    requires
        sorted_by_key(first),
        sorted_by_key(second),
    ensures
        sorted_by_key(merge_spec(first, second)),
{
    lemma_merge_seq_sorted(first, 0, second);
}

/// Merges the second source's blocks into the first source's list with a
/// forward-only cursor; on equal keys an incoming block is placed before
/// the resident one.
pub fn merge_blocks(first: Vec<Block>, second: Vec<Block>) -> (r: Vec<Block>)
    ensures
        r.deep_view() == merge_spec(first.deep_view(), second.deep_view()),
{
    let ghost firstv = first.deep_view();
    let ghost secondv = second.deep_view();
    let mut out = first;
    let mut rest = second;
    let mut c: usize = 0;
    while rest.len() > 0
        invariant
            c <= out@.len(),
            merge_spec(firstv, secondv) == merge_seq(out.deep_view(), c as int, rest.deep_view()),
        decreases rest@.len(),
    {
        let ghost outv = out.deep_view();
        let ghost restv = rest.deep_view();
        let b = rest.remove(0);
        proof {
            assert(rest.deep_view() =~= restv.drop_first());
            assert(b@ == restv[0]);
        }
        let key = b.time_key;
        let ghost c0 = c as int;
        while c < out.len() && out[c].time_key < key
            invariant
                out.deep_view() == outv,
                c0 <= c <= outv.len(),
                key as int == restv[0].time_key,
                0 <= c0,
                insert_pos(outv, c0, key as int) == insert_pos(outv, c as int, key as int),
            decreases outv.len() - c,
        {
            proof {
                assert(outv[c as int].time_key < key as int);
            }
            c = c + 1;
        }
        proof {
            assert(insert_pos(outv, c0, key as int) == c as int);
        }
        out.insert(c, b);
        proof {
            assert(out.deep_view() =~= outv.insert(c as int, restv[0]));
        }
    }
    proof {
        assert(rest.deep_view() =~= Seq::<BlockView>::empty());
    }
    out
}

} // verus!
