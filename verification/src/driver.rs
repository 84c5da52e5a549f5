//! The shuffle-and-redistribute driver.
//!
//! The files are traversed twice, in one fixed order. The first pass gathers
//! every qualifying entry's (item, amount) pair into a pool; the pool is
//! shuffled once; the second pass pops pairs off the end of the pool and
//! writes them back into the qualifying entries, visiting them in the same
//! order as the first pass. The pool is sized by the first pass, so the
//! second consumes it exactly.
use vstd::prelude::*;

use crate::files::apply_file;
use crate::files::collect_file;
use crate::files::file_pairs;
use crate::files::file_untouched;
use crate::files::file_wf;
use crate::node::Node;
use crate::walk::all_good;
use crate::walk::good_pair;

use rand::seq::SliceRandom;

verus! {

broadcast use
    vstd::seq::axiom_seq_index_decreases,
    vstd::seq::axiom_seq_subrange_decreases,
    vstd::std_specs::vec::axiom_vec_decreases_to_view,
    vstd::seq_lib::to_multiset_len,
    vstd::seq_lib::to_multiset_contains,
;

/// The pairs of a run of files, in traversal order.
pub open spec fn files_pairs(fs: Seq<Node>) -> Seq<(u32, u64)>
    decreases fs.len(),
{
    if fs.len() == 0 {
        Seq::<(u32, u64)>::empty()
    } else {
        file_pairs(fs[0]) + files_pairs(fs.drop_first())
    }
}

/// Splitting a run of files splits its pairs at the matching place.
pub proof fn lemma_files_pairs_split(fs: Seq<Node>, k: int)
    requires
        0 <= k <= fs.len(),
    ensures
        files_pairs(fs) == files_pairs(fs.take(k)) + files_pairs(fs.skip(k)),
    decreases k,
{
    if k == 0 {
        assert(fs.take(0) =~= Seq::<Node>::empty());
        assert(fs.skip(0) =~= fs);
        assert(files_pairs(fs) =~= files_pairs(fs.take(0)) + files_pairs(fs.skip(0)));
    } else {
        lemma_files_pairs_split(fs.drop_first(), k - 1);
        assert(fs.take(k).drop_first() =~= fs.drop_first().take(k - 1));
        assert(fs.skip(k) =~= fs.drop_first().skip(k - 1));
        assert(fs.take(k)[0] == fs[0]);
        assert(files_pairs(fs) =~= files_pairs(fs.take(k)) + files_pairs(fs.skip(k)));
    }
}

/// One more file adds exactly its pairs at the end.
pub proof fn lemma_files_pairs_snoc(fs: Seq<Node>, j: int)
    requires
        0 <= j < fs.len(),
    ensures
        files_pairs(fs.take(j + 1)) == files_pairs(fs.take(j)) + file_pairs(fs[j]),
{
    reveal_with_fuel(files_pairs, 2);
    let t = fs.take(j + 1);
    lemma_files_pairs_split(t, j);
    assert(t.take(j) =~= fs.take(j));
    assert(t.skip(j) =~= seq![fs[j]]);
    assert(seq![fs[j]].drop_first() =~= Seq::<Node>::empty());
    assert(files_pairs(seq![fs[j]]) =~= file_pairs(fs[j]));
}

/// A permutation of at most one element is that element run itself.
pub proof fn lemma_short_permutation(a: Seq<(u32, u64)>, b: Seq<(u32, u64)>)
    requires
        a.to_multiset() == b.to_multiset(),
        a.len() <= 1,
    ensures
        a == b,
{
    assert(a.to_multiset().len() == a.len());
    assert(b.to_multiset().len() == b.len());
    if a.len() == 0 {
        assert(b.len() == 0);
        assert(a =~= b);
    } else {
        assert(b.len() == 1);
        assert(b.contains(b[0]));
        assert(a.to_multiset().count(b[0]) > 0);
        assert(a.contains(b[0]));
        assert(a[0] == b[0]);
        assert(a =~= b);
    }
}

/// The read pass over every file, in order: the pool of all pairs.
pub fn collect_all(files: &Vec<Node>) -> (pool: Vec<(u32, u64)>)
    requires
        forall|i: int| 0 <= i < files@.len() ==> file_wf(#[trigger] files@[i]),
    ensures
        pool@ == files_pairs(files@),
        all_good(pool@),
{
    let mut pool: Vec<(u32, u64)> = Vec::new();
    let mut i: usize = 0;
    proof {
        assert(files@.take(0) =~= Seq::<Node>::empty());
        assert(pool@ =~= files_pairs(files@.take(0)));
    }
    while i < files.len()
        invariant
            0 <= i <= files@.len(),
            forall|t: int| 0 <= t < files@.len() ==> file_wf(#[trigger] files@[t]),
            pool@ == files_pairs(files@.take(i as int)),
            all_good(pool@),
        decreases files@.len() - i,
    {
        collect_file(&files[i], &mut pool);
        proof {
            lemma_files_pairs_snoc(files@, i as int);
        }
        i = i + 1;
    }
    proof {
        assert(files@.take(files@.len() as int) =~= files@);
    }
    pool
}

/// The write pass over every file, in the same order as the read pass. Hands
/// back each rewritten file with its visited flag; only flagged files need
/// writing out. Consumes exactly one pair per qualifying node, from the end
/// of the pool; the rewritten files' pairs are the consumed block of the
/// pool read backwards.
pub fn apply_all(files: Vec<Node>, pool: &mut Vec<(u32, u64)>) -> (r: (Vec<Node>, Vec<bool>))
    requires
        forall|i: int| 0 <= i < files@.len() ==> file_wf(#[trigger] files@[i]),
        files_pairs(files@).len() <= old(pool)@.len(),
        all_good(old(pool)@),
    ensures
        final(pool)@ == old(pool)@.take(old(pool)@.len() - files_pairs(files@).len()),
        r.0@.len() == files@.len(),
        r.1@.len() == files@.len(),
        forall|i: int| 0 <= i < files@.len() ==> file_untouched(files@[i], #[trigger] r.0@[i]),
        forall|i: int| 0 <= i < files@.len() ==> file_wf(#[trigger] r.0@[i]),
        forall|i: int|
            0 <= i < files@.len() ==> r.1@[i] == (file_pairs(#[trigger] files@[i]).len() > 0),
        files_pairs(r.0@) == old(pool)@.skip(
            old(pool)@.len() - files_pairs(files@).len(),
        ).reverse(),
{
    let ghost fs0 = files@;
    let ghost pool0 = pool@;
    let ghost l0 = pool0.len();
    let mut rest = files;
    let mut out: Vec<Node> = Vec::new();
    let mut flags: Vec<bool> = Vec::new();
    proof {
        assert(fs0.skip(0) =~= fs0);
        assert(fs0.take(0) =~= Seq::<Node>::empty());
        assert(pool0.take(l0 as int) =~= pool0);
        assert(pool0.skip(l0 as int).reverse() =~= Seq::<(u32, u64)>::empty());
    }
    while rest.len() > 0
        invariant
            out@.len() + rest@.len() == fs0.len(),
            flags@.len() == out@.len(),
            rest@ == fs0.skip(out@.len() as int),
            forall|t: int| 0 <= t < fs0.len() ==> file_wf(#[trigger] fs0[t]),
            files_pairs(fs0).len() <= l0 == pool0.len(),
            all_good(pool0),
            pool@ == pool0.take(l0 - files_pairs(fs0.take(out@.len() as int)).len()),
            forall|t: int| 0 <= t < out@.len() ==> file_untouched(fs0[t], #[trigger] out@[t]),
            forall|t: int| 0 <= t < out@.len() ==> file_wf(#[trigger] out@[t]),
            forall|t: int|
                0 <= t < out@.len() ==> flags@[t] == (file_pairs(#[trigger] fs0[t]).len() > 0),
            files_pairs(out@) == pool0.skip(
                l0 - files_pairs(fs0.take(out@.len() as int)).len(),
            ).reverse(),
        decreases rest@.len(),
    {
        let ghost j = out@.len() as int;
        let ghost c_head = files_pairs(fs0.take(j)).len() as int;
        let f = rest.remove(0);
        proof {
            assert(fs0.skip(j)[0] == fs0[j]);
            assert(f == fs0[j]);
            assert(rest@ =~= fs0.skip(j + 1));
            lemma_files_pairs_split(fs0, j);
            assert(fs0.skip(j).drop_first() =~= fs0.skip(j + 1));
            assert(files_pairs(fs0.skip(j)) == file_pairs(fs0[j]) + files_pairs(fs0.skip(j + 1)));
            assert(c_head + file_pairs(f).len() <= l0);
            assert forall|t: int| 0 <= t < pool@.len() implies good_pair(#[trigger] pool@[t]) by {
                assert(pool@[t] == pool0[t]);
            }
            assert(all_good(pool@));
        }
        let (m, v) = apply_file(f, pool);
        proof {
            let c = file_pairs(f).len() as int;
            assert(pool@ =~= pool0.take(l0 - c_head - c));
            lemma_files_pairs_snoc(fs0, j);
            lemma_files_pairs_snoc(out@.push(m), j);
            assert(out@.push(m).take(j) =~= out@);
            assert(out@.push(m).take(j + 1) =~= out@.push(m));
            assert(files_pairs(out@.push(m)) == files_pairs(out@) + file_pairs(m));
            assert(file_pairs(m) == pool0.take(l0 - c_head).skip(l0 - c_head - c).reverse());
            assert(files_pairs(out@.push(m)) =~= pool0.skip(l0 - c_head - c).reverse());
        }
        out.push(m);
        flags.push(v);
    }
    proof {
        assert(fs0.take(fs0.len() as int) =~= fs0);
    }
    (out, flags)
}

/// Relies on rand's `SliceRandom::shuffle`: a Fisher-Yates pass of in-place
/// swaps driven by the thread's generator, so the run after the call holds
/// exactly the pairs it held before, in some order. Nothing is promised of
/// which order comes out.
#[verifier::external_body]
fn shuffle_pairs(pool: &mut Vec<(u32, u64)>)
    ensures
        final(pool)@.len() == old(pool)@.len(),
        final(pool)@.to_multiset() == old(pool)@.to_multiset(),
{
    let mut rng = rand::thread_rng();
    pool.as_mut_slice().shuffle(&mut rng);
}

/// One whole run: collect every qualifying entry's pair, shuffle the pool
/// uniformly at random, and write the pairs back over the same entries in
/// traversal order. Hands back the rewritten files and, for each, whether it
/// held any qualifying entry and so needs writing out.
///
/// The stated laws: the multiset of pairs across all files is conserved —
/// nothing is created, duplicated or lost, only redistributed; a file
/// without a qualifying entry comes back unflagged and whole; and a pool of
/// at most one pair leaves every file's pairs exactly as they were.
pub fn randomize_files(files: Vec<Node>) -> (r: (Vec<Node>, Vec<bool>))
    requires
        forall|i: int| 0 <= i < files@.len() ==> file_wf(#[trigger] files@[i]),
    ensures
        r.0@.len() == files@.len(),
        r.1@.len() == files@.len(),
        files_pairs(r.0@).to_multiset() == files_pairs(files@).to_multiset(),
        forall|i: int| 0 <= i < files@.len() ==> file_untouched(files@[i], #[trigger] r.0@[i]),
        forall|i: int| 0 <= i < files@.len() ==> file_wf(#[trigger] r.0@[i]),
        forall|i: int|
            0 <= i < files@.len() ==> r.1@[i] == (file_pairs(#[trigger] files@[i]).len() > 0),
        forall|i: int|
            0 <= i < files@.len() && file_pairs(files@[i]).len() == 0 ==> crate::walk::node_eq(
                files@[i],
                #[trigger] r.0@[i],
            ),
        files_pairs(files@).len() <= 1 ==> files_pairs(r.0@) == files_pairs(files@),
{
    let ghost fs0 = files@;
    let mut pool = collect_all(&files);
    let ghost collected = pool@;
    shuffle_pairs(&mut pool);
    let ghost shuffled = pool@;
    proof {
        assert forall|i: int| 0 <= i < shuffled.len() implies good_pair(
            #[trigger] shuffled[i],
        ) by {
            assert(shuffled.contains(shuffled[i]));
            assert(shuffled.to_multiset().count(shuffled[i]) > 0);
            assert(collected.contains(shuffled[i]));
            let w = choose|w: int| 0 <= w < collected.len() && collected[w] == shuffled[i];
            assert(good_pair(collected[w]));
        }
        assert(all_good(shuffled));
    }
    let r = apply_all(files, &mut pool);
    proof {
        assert(shuffled.take(0) =~= Seq::<(u32, u64)>::empty());
        assert(shuffled.skip(0) =~= shuffled);
        assert(files_pairs(r.0@) == shuffled.reverse());
        shuffled.lemma_reverse_to_multiset();
        assert(files_pairs(r.0@).to_multiset() == shuffled.to_multiset());
        assert(files_pairs(r.0@).to_multiset() == files_pairs(fs0).to_multiset());
        if files_pairs(fs0).len() <= 1 {
            lemma_short_permutation(collected, shuffled);
            lemma_short_permutation(files_pairs(fs0), files_pairs(r.0@));
        }
        assert forall|i: int|
            0 <= i < fs0.len() && file_pairs(fs0[i]).len() == 0 implies crate::walk::node_eq(
            fs0[i],
            #[trigger] r.0@[i],
        ) by {
            crate::files::lemma_file_skip_whole(fs0[i], r.0@[i]);
        }
    }
    r
}

} // verus!
