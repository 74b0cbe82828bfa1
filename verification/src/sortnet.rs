//! Batcher's odd-even merge sorting network: comparator lists and what applying them does.
use vstd::prelude::*;

verus! {

/// The comparators `(a, b)` of a list, as integer pairs.
pub open spec fn as_pairs(x: Seq<(usize, usize)>) -> Seq<(int, int)> {
    x.map_values(|p: (usize, usize)| (p.0 as int, p.1 as int))
}

/// The last layer of an odd-even merge: `(i, i + r)` for `i = lo, lo + step, ...` while `i < h - r`.
pub open spec fn merge_layer(i: int, h: int, r: int, step: int) -> Seq<(int, int)>
    decreases (if i < h { h - i } else { 0 }),
{
    if step > 0 && r >= 0 && i < h - r {
        seq![(i, i + r)] + merge_layer(i + step, h, r, step)
    } else {
        seq![]
    }
}

/// Odd-even merge of the elements `l, l + r, l + 2r, ...` up to `h`.
pub open spec fn merge_net(l: int, h: int, r: int) -> Seq<(int, int)>
    decreases h - l, h - r,
{
    if r <= 0 || l < 0 {
        seq![]
    } else if 2 * r < h - l {
        merge_net(l, h, 2 * r) + merge_net(l + r, h, 2 * r) + merge_layer(l + r, h, r, 2 * r)
    } else {
        seq![(l, l + r)]
    }
}

/// Odd-even merge sort of the positions `l..=h`.
pub open spec fn sort_net(l: int, h: int) -> Seq<(int, int)>
    decreases h - l,
{
    if h - l >= 1 {
        let mid = l + (h - l) / 2;
        sort_net(l, mid) + sort_net(mid + 1, h) + merge_net(l, h, 1)
    } else {
        seq![]
    }
}

/// Appends the comparator `(a, b)`.
pub fn compare_and_swap(x: &mut Vec<(usize, usize)>, a: usize, b: usize)
    ensures
        final(x)@ == old(x)@.push((a, b)),
{
    x.push((a, b));
}

proof fn lemma_as_pairs_push(x: Seq<(usize, usize)>, p: (usize, usize))
    ensures
        as_pairs(x.push(p)) == as_pairs(x).push((p.0 as int, p.1 as int)),
{
    assert(as_pairs(x.push(p)) =~= as_pairs(x).push((p.0 as int, p.1 as int)));
}

/// Appends the comparators of the odd-even merge of `l, l + r, ...` up to `h`.
pub fn sorter_merge(x: &mut Vec<(usize, usize)>, l: usize, h: usize, r: usize)
    requires
        1 <= r <= usize::MAX / 4,
        l <= h,
        h <= usize::MAX / 4,
    ensures
        as_pairs(final(x)@) == as_pairs(old(x)@) + merge_net(l as int, h as int, r as int),
    decreases h - l, h - r,
{
    let step = r * 2;
    if step < h - l {
        sorter_merge(x, l, h, step);
        sorter_merge(x, l + r, h, step);
        let ghost mid = as_pairs(x@);
        let mut i = l + r;
        while i < h - r
            invariant
                l + r <= i,
                i <= h + step,
                1 <= r <= h,
                step == 2 * r,
                h <= usize::MAX / 4,
                as_pairs(x@) + merge_layer(i as int, h as int, r as int, step as int)
                    == mid + merge_layer((l + r) as int, h as int, r as int, step as int),
            decreases h + step - i,
        {
            let ghost before = as_pairs(x@);
            proof {
                lemma_as_pairs_push(x@, (i, (i + r) as usize));
            }
            compare_and_swap(x, i, i + r);
            assert(merge_layer(i as int, h as int, r as int, step as int)
                == seq![(i as int, i + r)] + merge_layer(i + step, h as int, r as int, step as int));
            assert(as_pairs(x@) + merge_layer(i + step, h as int, r as int, step as int)
                =~= before + merge_layer(i as int, h as int, r as int, step as int));
            i += step;
        }
        assert(merge_layer(i as int, h as int, r as int, step as int) =~= seq![]);
        assert(as_pairs(x@) =~= as_pairs(old(x)@) + merge_net(l as int, h as int, r as int));
    } else {
        proof {
            lemma_as_pairs_push(x@, (l, (l + r) as usize));
        }
        compare_and_swap(x, l, l + r);
        assert(as_pairs(x@) =~= as_pairs(old(x)@) + merge_net(l as int, h as int, r as int));
    }
}

/// Appends the comparators of Batcher's odd-even merge sort of the positions `l..=h`.
pub fn mksorter(x: &mut Vec<(usize, usize)>, l: usize, h: usize)
    requires
        l <= h,
        h <= usize::MAX / 4,
    ensures
        as_pairs(final(x)@) == as_pairs(old(x)@) + sort_net(l as int, h as int),
    decreases h - l,
{
    if h - l >= 1 {
        let mid = l + (h - l) / 2;
        mksorter(x, l, mid);
        mksorter(x, mid + 1, h);
        sorter_merge(x, l, h, 1);
        assert(as_pairs(x@) =~= as_pairs(old(x)@) + sort_net(l as int, h as int));
    } else {
        assert(as_pairs(x@) =~= as_pairs(old(x)@) + sort_net(l as int, h as int));
    }
}

} // verus!
