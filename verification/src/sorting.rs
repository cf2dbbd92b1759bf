//! The filters of all artifacts, in the order of the first instruction that
//! each matches.

use crate::encoding::{encoding_views, Encoding, EncodingView};
use crate::filter::{filter_views, is_filter, lemma_smallest_match, smallest_match, ByteFilter, Filter};
use crate::instruction::{lemma_order_is_rank, lex_le, Instruction};
use vstd::prelude::*;

verus! {

/// `sorted` with `f` put behind the last filter whose first match comes at
/// or before that of `f`.
pub open spec fn insert_sorted(sorted: Seq<Seq<ByteFilter>>, f: Seq<ByteFilter>) -> Seq<
    Seq<ByteFilter>,
>
    decreases sorted.len(),
{
    if sorted.len() == 0 {
        seq![f]
    } else if lex_le(smallest_match(sorted.last()), smallest_match(f)) {
        sorted.push(f)
    } else {
        insert_sorted(sorted.drop_last(), f).push(sorted.last())
    }
}

/// The filters of `fs` by the first instruction that each matches; filters
/// with the same first match keep their order.
pub open spec fn sorted_filters(fs: Seq<Seq<ByteFilter>>) -> Seq<Seq<ByteFilter>>
    decreases fs.len(),
{
    if fs.len() == 0 {
        fs
    } else {
        insert_sorted(sorted_filters(fs.drop_last()), fs.last())
    }
}

/// The filters of all artifacts, artifact by artifact.
pub open spec fn all_filters(artifacts: Seq<EncodingView>) -> Seq<Seq<ByteFilter>>
    decreases artifacts.len(),
{
    if artifacts.len() == 0 {
        Seq::empty()
    } else {
        all_filters(artifacts.drop_last()) + artifacts.last().filters
    }
}

/// Whether the first matches of the filters come in rising order.
pub open spec fn in_order(fs: Seq<Seq<ByteFilter>>) -> bool {
    forall|i: int, j: int|
        0 <= i < j < fs.len() ==> lex_le(
            smallest_match(#[trigger] fs[i]),
            smallest_match(#[trigger] fs[j]),
        )
}

/// Where `f` belongs at `at`, `insert_sorted` puts it there.
pub proof fn lemma_insert_at(sorted: Seq<Seq<ByteFilter>>, f: Seq<ByteFilter>, at: int)
    requires
        0 <= at <= sorted.len(),
        forall|i: int|
            at <= i < sorted.len() ==> !lex_le(
                smallest_match(#[trigger] sorted[i]),
                smallest_match(f),
            ),
        at > 0 ==> lex_le(smallest_match(sorted[at - 1]), smallest_match(f)),
    ensures
        insert_sorted(sorted, f) == sorted.insert(at, f),
    decreases sorted.len(),
{
    if sorted.len() == 0 {
        assert(seq![f] =~= sorted.insert(at, f));
    } else if at == sorted.len() {
        assert(sorted.push(f) =~= sorted.insert(at, f));
    } else {
        let front = sorted.drop_last();
        assert(!lex_le(smallest_match(sorted[sorted.len() - 1]), smallest_match(f)));
        assert forall|i: int| at <= i < front.len() implies !lex_le(
            smallest_match(#[trigger] front[i]),
            smallest_match(f),
        ) by {
            assert(front[i] == sorted[i]);
        }
        lemma_insert_at(front, f, at);
        assert(front.insert(at, f).push(sorted.last()) =~= sorted.insert(at, f));
    }
}

/// What `insert_sorted` gives holds `f` and the filters of `sorted`, and no
/// others; and it is in order where `sorted` is.
pub proof fn lemma_insert_sorted(sorted: Seq<Seq<ByteFilter>>, f: Seq<ByteFilter>)
    requires
        is_filter(f),
        forall|i: int| 0 <= i < sorted.len() ==> is_filter(#[trigger] sorted[i]),
    ensures
        insert_sorted(sorted, f).len() == sorted.len() + 1,
        insert_sorted(sorted, f).to_multiset() == sorted.to_multiset().insert(f),
        forall|i: int|
            0 <= i < insert_sorted(sorted, f).len() ==> {
                let g = #[trigger] insert_sorted(sorted, f)[i];
                is_filter(g) && (g == f || sorted.contains(g))
            },
        in_order(sorted) ==> in_order(insert_sorted(sorted, f)),
    decreases sorted.len(),
{
    broadcast use vstd::seq_lib::group_to_multiset_ensures;

    let out = insert_sorted(sorted, f);
    if sorted.len() == 0 {
        assert(sorted =~= Seq::empty());
        assert(out =~= sorted.push(f));
    } else if lex_le(smallest_match(sorted.last()), smallest_match(f)) {
        assert forall|i: int| 0 <= i < out.len() implies {
            let g = #[trigger] out[i];
            is_filter(g) && (g == f || sorted.contains(g))
        } by {
            if i < sorted.len() {
                assert(out[i] == sorted[i]);
            }
        }
        if in_order(sorted) {
            assert forall|i: int, j: int| 0 <= i < j < out.len() implies lex_le(
                smallest_match(#[trigger] out[i]),
                smallest_match(#[trigger] out[j]),
            ) by {
                lemma_keys(out[i], out[j]);
                lemma_keys(sorted.last(), f);
                lemma_keys(out[i], sorted.last());
                lemma_keys(out[i], f);
                if j < sorted.len() {
                    assert(lex_le(smallest_match(sorted[i]), smallest_match(sorted[j])));
                } else if i < sorted.len() - 1 {
                    assert(lex_le(
                        smallest_match(sorted[i]),
                        smallest_match(sorted[sorted.len() - 1]),
                    ));
                }
            }
        }
    } else {
        let front = sorted.drop_last();
        let last = sorted.last();
        let inner = insert_sorted(front, f);
        assert forall|i: int| 0 <= i < front.len() implies is_filter(#[trigger] front[i]) by {
            assert(front[i] == sorted[i]);
        }
        lemma_insert_sorted(front, f);
        assert(sorted =~= front.push(last));
        assert(out.to_multiset() =~= sorted.to_multiset().insert(f));
        assert forall|i: int| 0 <= i < out.len() implies {
            let g = #[trigger] out[i];
            is_filter(g) && (g == f || sorted.contains(g))
        } by {
            if i < inner.len() {
                let g = inner[i];
                assert(out[i] == g);
                if g != f {
                    assert(front.contains(g));
                    let w = choose|w: int| 0 <= w < front.len() && front[w] == g;
                    assert(sorted[w] == g);
                }
            } else {
                assert(sorted[sorted.len() - 1] == out[i]);
            }
        }
        if in_order(sorted) {
            assert forall|i: int, j: int| 0 <= i < j < front.len() implies lex_le(
                smallest_match(#[trigger] front[i]),
                smallest_match(#[trigger] front[j]),
            ) by {
                assert(lex_le(smallest_match(sorted[i]), smallest_match(sorted[j])));
            }
            assert(in_order(inner));
            assert forall|i: int, j: int| 0 <= i < j < out.len() implies lex_le(
                smallest_match(#[trigger] out[i]),
                smallest_match(#[trigger] out[j]),
            ) by {
                if j < inner.len() {
                    assert(lex_le(smallest_match(inner[i]), smallest_match(inner[j])));
                } else {
                    let g = inner[i];
                    assert(out[i] == g);
                    lemma_keys(last, f);
                    if g != f {
                        assert(front.contains(g));
                        let w = choose|w: int| 0 <= w < front.len() && front[w] == g;
                        assert(lex_le(
                            smallest_match(sorted[w]),
                            smallest_match(sorted[sorted.len() - 1]),
                        ));
                    }
                }
            }
        }
    }
}

// The first matches of two filters are in order one way or the other, and
// the order is that of their ranks.
proof fn lemma_keys(f: Seq<ByteFilter>, g: Seq<ByteFilter>)
    requires
        is_filter(f),
        is_filter(g),
    ensures
        lex_le(smallest_match(f), smallest_match(g)) || lex_le(smallest_match(g), smallest_match(f)),
        lex_le(smallest_match(f), smallest_match(g)) <==> crate::instruction::rank(
            smallest_match(f),
        ) <= crate::instruction::rank(smallest_match(g)),
{
    lemma_smallest_match(f, Seq::empty());
    lemma_smallest_match(g, Seq::empty());
    lemma_order_is_rank(smallest_match(f), smallest_match(g));
    lemma_order_is_rank(smallest_match(g), smallest_match(f));
}

/// `sorted_filters` gives the filters of `fs`, each as often as `fs` holds
/// it, in the order of their first matches.
pub proof fn lemma_sorted_filters(fs: Seq<Seq<ByteFilter>>)
    requires
        forall|i: int| 0 <= i < fs.len() ==> is_filter(#[trigger] fs[i]),
    ensures
        sorted_filters(fs).len() == fs.len(),
        sorted_filters(fs).to_multiset() == fs.to_multiset(),
        forall|i: int| 0 <= i < sorted_filters(fs).len() ==> is_filter(#[trigger] sorted_filters(fs)[i]),
        in_order(sorted_filters(fs)),
    decreases fs.len(),
{
    broadcast use vstd::seq_lib::group_to_multiset_ensures;

    if fs.len() > 0 {
        let front = fs.drop_last();
        assert forall|i: int| 0 <= i < front.len() implies is_filter(#[trigger] front[i]) by {
            assert(front[i] == fs[i]);
        }
        lemma_sorted_filters(front);
        assert(is_filter(fs[fs.len() - 1]));
        lemma_insert_sorted(sorted_filters(front), fs.last());
        assert(fs =~= front.push(fs.last()));
    }
}

/// The filters of well-formed artifacts have the shape of filters.
pub proof fn lemma_all_filters(artifacts: Seq<EncodingView>)
    requires
        forall|i: int| 0 <= i < artifacts.len() ==> (#[trigger] artifacts[i]).wf(),
    ensures
        forall|i: int| 0 <= i < all_filters(artifacts).len() ==> is_filter(#[trigger] all_filters(artifacts)[i]),
    decreases artifacts.len(),
{
    if artifacts.len() > 0 {
        let front = artifacts.drop_last();
        assert forall|i: int| 0 <= i < front.len() implies (#[trigger] front[i]).wf() by {
            assert(front[i] == artifacts[i]);
        }
        lemma_all_filters(front);
        let last = artifacts.last();
        assert(last == artifacts[artifacts.len() - 1]);
        assert(last.wf());
        let before = all_filters(front);
        assert forall|i: int| 0 <= i < all_filters(artifacts).len() implies is_filter(
            #[trigger] all_filters(artifacts)[i],
        ) by {
            if i < before.len() {
                assert(all_filters(artifacts)[i] == before[i]);
            } else {
                assert(all_filters(artifacts)[i] == last.filters[i - before.len()]);
            }
        }
    }
}

/// The filters of all artifacts, sorted by the first instruction that each
/// matches; filters with the same first match stay in the order of the
/// artifacts.
pub fn collect_sorted(artifacts: &Vec<Encoding>) -> (sorted: Vec<Filter>)
    requires
        forall|i: int| 0 <= i < artifacts@.len() ==> (#[trigger] artifacts@[i]).wf(),
    ensures
        filter_views(sorted@) == sorted_filters(all_filters(encoding_views(artifacts@))),
        forall|i: int| 0 <= i < sorted@.len() ==> (#[trigger] sorted@[i]).wf(),
{
    let ghost av = encoding_views(artifacts@);
    let mut sorted: Vec<Filter> = Vec::new();
    let mut keys: Vec<Instruction> = Vec::new();
    let n: usize = artifacts.len();
    let mut i: usize = 0;
    assert(av.subrange(0, 0) =~= Seq::<EncodingView>::empty());
    assert(filter_views(sorted@) =~= Seq::<Seq<ByteFilter>>::empty());
    while i < n
        invariant
            n == artifacts.len(),
            i <= n,
            av == encoding_views(artifacts@),
            forall|k: int| 0 <= k < artifacts@.len() ==> (#[trigger] artifacts@[k]).wf(),
            filter_views(sorted@) == sorted_filters(all_filters(av.subrange(0, i as int))),
            forall|k: int| 0 <= k < sorted@.len() ==> (#[trigger] sorted@[k]).wf(),
            keys@.len() == sorted@.len(),
            forall|k: int| 0 <= k < keys@.len() ==> (#[trigger] keys@[k])@ == smallest_match(sorted@[k]@),
        decreases n - i,
    {
        let encoding = &artifacts[i];
        let filters = encoding.filters();
        let ghost fv = av[i as int].filters;
        let ghost before = all_filters(av.subrange(0, i as int));
        let m: usize = filters.len();
        let mut j: usize = 0;
        assert(before + fv.subrange(0, 0) =~= before);
        while j < m
            invariant
                m == filters.len(),
                j <= m,
                fv == filter_views(filters@),
                forall|k: int| 0 <= k < filters@.len() ==> (#[trigger] filters@[k]).wf(),
                filter_views(sorted@) == sorted_filters(before + fv.subrange(0, j as int)),
                forall|k: int| 0 <= k < sorted@.len() ==> (#[trigger] sorted@[k]).wf(),
                keys@.len() == sorted@.len(),
                forall|k: int| 0 <= k < keys@.len() ==> (#[trigger] keys@[k])@ == smallest_match(sorted@[k]@),
            decreases m - j,
        {
            let filter = filters[j].clone();
            let key = filter.smallest_matching_instruction();
            let ghost old_views = filter_views(sorted@);
            let mut at: usize = sorted.len();
            while at > 0 && key.lt(&keys[at - 1])
                invariant
                    at <= sorted@.len(),
                    keys@.len() == sorted@.len(),
                    filter.wf(),
                    key@ == smallest_match(filter@),
                    forall|k: int| 0 <= k < sorted@.len() ==> (#[trigger] sorted@[k]).wf(),
                    forall|k: int| 0 <= k < keys@.len() ==> (#[trigger] keys@[k])@ == smallest_match(sorted@[k]@),
                    forall|k: int|
                        at <= k < sorted@.len() ==> !lex_le(
                            smallest_match((#[trigger] sorted@[k])@),
                            smallest_match(filter@),
                        ),
                decreases at,
            {
                proof {
                    lemma_keys(sorted@[at - 1]@, filter@);
                    lemma_keys(filter@, sorted@[at - 1]@);
                    lemma_smallest_match(filter@, Seq::empty());
                    lemma_smallest_match(sorted@[at - 1]@, Seq::empty());
                    lemma_order_is_rank(key@, keys@[at - 1]@);
                }
                at -= 1;
            }
            proof {
                if at > 0 {
                    lemma_smallest_match(filter@, Seq::empty());
                    lemma_smallest_match(sorted@[at - 1]@, Seq::empty());
                    lemma_order_is_rank(key@, keys@[at - 1]@);
                    lemma_order_is_rank(keys@[at - 1]@, key@);
                }
                assert forall|k: int| at <= k < old_views.len() implies !lex_le(
                    smallest_match(#[trigger] old_views[k]),
                    smallest_match(filter@),
                ) by {
                    assert(old_views[k] == sorted@[k]@);
                }
                lemma_insert_at(old_views, filter@, at as int);
                let grown = before + fv.subrange(0, j + 1);
                assert(grown.drop_last() =~= before + fv.subrange(0, j as int));
                assert(grown.last() == filter@);
            }
            sorted.insert(at, filter);
            keys.insert(at, key);
            assert(filter_views(sorted@) =~= old_views.insert(at as int, filter@));
            j += 1;
        }
        proof {
            let upto = av.subrange(0, i + 1);
            assert(upto.drop_last() =~= av.subrange(0, i as int));
            assert(upto.last() == av[i as int]);
            assert(fv.subrange(0, m as int) =~= fv);
        }
        i += 1;
    }
    assert(av.subrange(0, n as int) =~= av);
    sorted
}

} // verus!
