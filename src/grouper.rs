//! Greedy packing of text fragments into chunks bounded by a character count.
use crate::chunker::texts;
use vstd::prelude::*;
use vstd::seq_lib::lemma_flatten_concat;
use vstd::string::{StrSliceExecFns, StringExecFns};

verus! {

/// The packing state: the sealed chunks and the accumulator.
pub type Packing = (Seq<Seq<char>>, Seq<char>);

/// The state after taking `fragment`: when it does not fit beside the
/// accumulator, the accumulator is sealed (if non-empty) and restarts as the
/// fragment; otherwise the fragment is appended to it.
pub open spec fn take_fragment(p: Packing, fragment: Seq<char>, max_content_len: int) -> Packing {
    if fragment.len() + p.1.len() > max_content_len {
        (if p.1.len() == 0 { p.0 } else { p.0.push(p.1) }, fragment)
    } else {
        (p.0, p.1 + fragment)
    }
}

/// The state after taking `fragments` in order.
pub open spec fn pack(fragments: Seq<Seq<char>>, max_content_len: int) -> Packing
    decreases fragments.len(),
{
    if fragments.len() == 0 {
        (Seq::empty(), Seq::empty())
    } else {
        take_fragment(pack(fragments.drop_last(), max_content_len), fragments.last(), max_content_len)
    }
}

/// The chunks of packing `fragments`: the sealed ones, then the accumulator if
/// non-empty.
pub open spec fn grouped(fragments: Seq<Seq<char>>, max_content_len: int) -> Seq<Seq<char>> {
    let p = pack(fragments, max_content_len);
    if p.1.len() == 0 {
        p.0
    } else {
        p.0.push(p.1)
    }
}

/// Packs `paragraphs`, in order, into chunks of at most `max_content_len`
/// characters, never splitting a paragraph: one longer than the limit is a chunk of
/// its own.
pub fn group_paragraphs_by_max_content_len(paragraphs: Vec<String>, max_content_len: usize) -> (r:
    Vec<String>)
    ensures
        texts(r@) == grouped(texts(paragraphs@), max_content_len as int),
{
    let ghost frags = texts(paragraphs@);
    let ghost m = max_content_len as int;
    let mut result: Vec<String> = Vec::new();
    let mut current = String::new();
    let mut i: usize = 0;
    while i < paragraphs.len()
        invariant
            frags == texts(paragraphs@),
            m == max_content_len,
            0 <= i <= paragraphs.len(),
            pack(frags.take(i as int), m) == (texts(result@), current@),
        decreases paragraphs.len() - i,
    {
        let paragraph = paragraphs[i].clone();
        let ghost before = pack(frags.take(i as int), m);
        assert(frags.take(i + 1).drop_last() =~= frags.take(i as int));
        assert(paragraph@ == frags.take(i + 1).last());
        let p_len = paragraph.as_str().unicode_len();
        let c_len = current.as_str().unicode_len();
        if p_len > max_content_len || c_len > max_content_len - p_len {
            let accumulated = current;
            current = paragraph;
            if !accumulated.as_str().is_empty() {
                result.push(accumulated);
                assert(texts(result@) =~= before.0.push(before.1));
            }
        } else {
            current.append(paragraph.as_str());
        }
        i = i + 1;
    }
    assert(frags.take(i as int) =~= frags);
    if !current.as_str().is_empty() {
        let ghost sealed = texts(result@);
        let ghost last = current@;
        result.push(current);
        assert(texts(result@) =~= sealed.push(last));
    }
    result
}

/// Packing no fragment gives no chunk, whatever the limit.
pub proof fn group_of_empty_is_empty(max_content_len: int)
    ensures
        grouped(Seq::empty(), max_content_len) == Seq::<Seq<char>>::empty(),
{
}

/// `chunks` are the fragments cut at `bounds`: chunk `j` joins the fragments
/// from `bounds[j]` up to `bounds[j + 1]`, at least one of them, and the
/// fragments after the last bound join to nothing.
pub open spec fn cut_at(fragments: Seq<Seq<char>>, chunks: Seq<Seq<char>>, bounds: Seq<int>) -> bool {
    &&& bounds.len() == chunks.len() + 1
    &&& bounds[0] == 0
    &&& forall|j: int| 0 <= j < bounds.len() ==> 0 <= #[trigger] bounds[j] <= fragments.len()
    &&& forall|j: int| 0 <= j < chunks.len() ==> #[trigger] bounds[j] < bounds[j + 1]
    &&& forall|j: int|
        0 <= j < chunks.len() ==> #[trigger] chunks[j] == fragments.subrange(
            bounds[j],
            bounds[j + 1],
        ).flatten()
    &&& fragments.subrange(bounds.last(), fragments.len() as int).flatten().len() == 0
}

proof fn lemma_flatten_extend(fs: Seq<Seq<char>>, a: int, i: int)
    requires
        0 <= a <= i < fs.len(),
    ensures
        fs.subrange(a, i + 1).flatten() == fs.subrange(a, i).flatten() + fs[i],
{
    broadcast use Seq::lemma_flatten_push;

    assert(fs.subrange(a, i + 1) =~= fs.subrange(a, i).push(fs[i]));
}

/// The invariant of packing: the sealed chunks are the fragments cut at the
/// returned bounds, and the accumulator joins the fragments after the last.
proof fn lemma_pack_cuts(fs: Seq<Seq<char>>, m: int) -> (b: Seq<int>)
    ensures
        b.len() == pack(fs, m).0.len() + 1,
        b[0] == 0,
        forall|j: int| 0 <= j < b.len() ==> 0 <= #[trigger] b[j] <= fs.len(),
        forall|j: int| 0 <= j < pack(fs, m).0.len() ==> #[trigger] b[j] < b[j + 1],
        forall|j: int|
            0 <= j < pack(fs, m).0.len() ==> #[trigger] pack(fs, m).0[j] == fs.subrange(
                b[j],
                b[j + 1],
            ).flatten(),
        pack(fs, m).1 == fs.subrange(b.last(), fs.len() as int).flatten(),
    decreases fs.len(),
{
    if fs.len() == 0 {
        assert(fs.subrange(0, 0) =~= Seq::<Seq<char>>::empty());
        seq![0]
    } else {
        let n = fs.len() - 1;
        let prev = fs.drop_last();
        let b0 = lemma_pack_cuts(prev, m);
        let p = pack(prev, m);
        let f = fs[n];
        assert(fs.last() == f);
        assert(prev.len() == n);
        assert(pack(fs, m) == take_fragment(p, f, m));
        assert(0 <= b0[b0.len() - 1] <= n);
        assert forall|j: int| 0 <= j < p.0.len() implies b0[j] < b0[j + 1] && #[trigger] p.0[j]
            == fs.subrange(b0[j], b0[j + 1]).flatten() by {
            assert(b0.len() == p.0.len() + 1);
            assert(b0[j] < b0[j + 1]);
            assert(p.0[j] == prev.subrange(b0[j], b0[j + 1]).flatten());
            assert(0 <= b0[j] && b0[j + 1] <= n);
            assert(fs.subrange(b0[j], b0[j + 1]) =~= prev.subrange(b0[j], b0[j + 1]));
        }
        assert(fs.subrange(b0.last(), n) =~= prev.subrange(b0.last(), n));
        lemma_flatten_extend(fs, b0.last(), n);
        if f.len() + p.1.len() > m {
            if p.1.len() == 0 {
                assert(f == fs.subrange(b0.last(), n + 1).flatten());
                assert(pack(fs, m).0 == p.0);
                b0
            } else {
                let b = b0.push(n);
                assert(b.last() == n);
                assert forall|j: int| 0 <= j < b.len() implies 0 <= #[trigger] b[j] <= fs.len() by {
                    if j < b0.len() {
                        assert(b[j] == b0[j]);
                    }
                }
                if b0.last() == n {
                    assert(prev.subrange(n, n) =~= Seq::<Seq<char>>::empty());
                }
                assert(fs.subrange(n, n + 1) =~= seq![f]);
                assert(seq![f].flatten() == f) by {
                    broadcast use Seq::lemma_flatten_singleton;
                }
                assert forall|j: int|
                    0 <= j < pack(fs, m).0.len() implies b[j] < b[j + 1] && #[trigger] pack(
                    fs,
                    m,
                ).0[j] == fs.subrange(b[j], b[j + 1]).flatten() by {
                    if j < p.0.len() {
                        assert(pack(fs, m).0[j] == p.0[j]);
                        assert(b[j] == b0[j] && b[j + 1] == b0[j + 1]);
                    } else {
                        assert(b[j] == b0.last());
                    }
                }
                b
            }
        } else {
            assert(pack(fs, m).0 == p.0);
            b0
        }
    }
}

/// Packing never splits a fragment: each chunk joins one or more whole,
/// consecutive fragments, in order, and nothing but empty fragments is left
/// after the last chunk.
pub proof fn group_never_splits_fragments(fragments: Seq<Seq<char>>, max_content_len: int)
    ensures
        exists|bounds: Seq<int>| #[trigger] cut_at(fragments, grouped(fragments, max_content_len), bounds),
{
    let m = max_content_len;
    let b0 = lemma_pack_cuts(fragments, m);
    let p = pack(fragments, m);
    let n = fragments.len() as int;
    if p.1.len() == 0 {
        assert(0 <= b0[b0.len() - 1] <= n);
        assert(grouped(fragments, m) == p.0);
        assert(fragments.subrange(b0.last(), n).flatten().len() == 0);
        assert forall|j: int| 0 <= j < p.0.len() implies b0[j] < b0[j + 1] && #[trigger] p.0[j]
            == fragments.subrange(b0[j], b0[j + 1]).flatten() by {
            assert(pack(fragments, m).0[j] == p.0[j]);
        }
        assert(cut_at(fragments, grouped(fragments, m), b0));
    } else {
        let b = b0.push(n);
        assert(fragments.subrange(n, n) =~= Seq::<Seq<char>>::empty());
        if b0.last() == n {
            assert(fragments.subrange(n, n).flatten().len() == 0);
        }
        let g = grouped(fragments, m);
        assert(0 <= b0[b0.len() - 1] <= n);
        assert(b.last() == n);
        assert forall|j: int|
            0 <= j < g.len() implies b[j] < b[j + 1] && #[trigger] g[j] == fragments.subrange(
            b[j],
            b[j + 1],
        ).flatten() by {
            if j < p.0.len() {
                assert(g[j] == p.0[j]);
                assert(pack(fragments, m).0[j] == p.0[j]);
                assert(b[j] == b0[j] && b[j + 1] == b0[j + 1]);
            } else {
                assert(b[j] == b0.last());
            }
        }
        assert(fragments.subrange(b.last(), n).flatten().len() == 0);
        assert forall|j: int| 0 <= j < b.len() implies 0 <= #[trigger] b[j] <= n by {
            if j < b0.len() {
                assert(b[j] == b0[j]);
            }
        }
        assert(cut_at(fragments, g, b));
    }
}

proof fn lemma_prefixes_follow_bounds(
    fragments: Seq<Seq<char>>,
    chunks: Seq<Seq<char>>,
    bounds: Seq<int>,
    j: int,
)
    requires
        cut_at(fragments, chunks, bounds),
        0 <= j <= chunks.len(),
    ensures
        chunks.take(j).flatten() == fragments.take(bounds[j]).flatten(),
    decreases j,
{
    if j == 0 {
        assert(chunks.take(0) =~= Seq::<Seq<char>>::empty());
        assert(fragments.take(0) =~= Seq::<Seq<char>>::empty());
    } else {
        broadcast use Seq::lemma_flatten_push;

        lemma_prefixes_follow_bounds(fragments, chunks, bounds, j - 1);
        let a = bounds[j - 1];
        let b = bounds[j];
        assert(0 <= a <= fragments.len() && 0 <= b <= fragments.len());
        assert(chunks[j - 1] == fragments.subrange(a, b).flatten() && a < b);
        assert(chunks.take(j) =~= chunks.take(j - 1).push(chunks[j - 1]));
        lemma_flatten_concat(fragments.take(a), fragments.subrange(a, b));
        assert(fragments.take(a) + fragments.subrange(a, b) =~= fragments.take(b));
    }
}

/// Every boundary between chunks is a boundary between fragments: the first
/// `j` chunks joined are the first `i` fragments joined, for some `i`.
pub proof fn group_cuts_at_fragment_boundaries(fragments: Seq<Seq<char>>, max_content_len: int)
    ensures
        forall|j: int|
            0 <= j <= grouped(fragments, max_content_len).len() ==> exists|i: int|
                0 <= i <= fragments.len() && #[trigger] grouped(fragments, max_content_len).take(
                    j,
                ).flatten() == fragments.take(i).flatten(),
{
    let g = grouped(fragments, max_content_len);
    group_never_splits_fragments(fragments, max_content_len);
    let bounds = choose|bounds: Seq<int>| #[trigger] cut_at(fragments, g, bounds);
    assert forall|j: int| 0 <= j <= g.len() implies exists|i: int|
        0 <= i <= fragments.len() && #[trigger] g.take(j).flatten() == fragments.take(i).flatten() by {
        lemma_prefixes_follow_bounds(fragments, g, bounds, j);
        assert(0 <= bounds[j] <= fragments.len());
    }
}

/// Packing keeps the content and its order: the chunks joined are the
/// fragments joined, and no chunk is empty.
pub proof fn group_preserves_content(fragments: Seq<Seq<char>>, max_content_len: int)
    ensures
        grouped(fragments, max_content_len).flatten() == fragments.flatten(),
        forall|j: int|
            0 <= j < grouped(fragments, max_content_len).len() ==> (#[trigger] grouped(
                fragments,
                max_content_len,
            )[j]).len() > 0,
{
    lemma_pack_joins(fragments, max_content_len);
    broadcast use Seq::lemma_flatten_push;

    let p = pack(fragments, max_content_len);
    if p.1.len() == 0 {
        assert(p.0.flatten() + p.1 =~= p.0.flatten());
    }
}

proof fn lemma_pack_joins(fs: Seq<Seq<char>>, m: int)
    ensures
        pack(fs, m).0.flatten() + pack(fs, m).1 == fs.flatten(),
        forall|j: int| 0 <= j < pack(fs, m).0.len() ==> (#[trigger] pack(fs, m).0[j]).len() > 0,
    decreases fs.len(),
{
    broadcast use Seq::lemma_flatten_push;

    if fs.len() == 0 {
        assert(Seq::<Seq<char>>::empty().flatten() + Seq::<char>::empty() =~= Seq::<char>::empty());
    } else {
        let prev = fs.drop_last();
        lemma_pack_joins(prev, m);
        assert(prev.push(fs.last()) =~= fs);
        let p = pack(prev, m);
        let f = fs.last();
        if f.len() + p.1.len() > m {
            if p.1.len() == 0 {
                assert(p.0.flatten() + p.1 =~= p.0.flatten());
            } else {
                assert(p.0.push(p.1).flatten() + f =~= p.0.flatten() + p.1 + f);
                assert forall|j: int| 0 <= j < pack(fs, m).0.len() implies (#[trigger] pack(
                    fs,
                    m,
                ).0[j]).len() > 0 by {
                    if j < p.0.len() {
                        assert(pack(fs, m).0[j] == p.0[j]);
                    }
                }
            }
        } else {
            assert(p.0.flatten() + (p.1 + f) =~= p.0.flatten() + p.1 + f);
        }
    }
}

} // verus!
