//! One map file under the two passes.
//!
//! A file's root is consulted for an `entities` field. When that field holds
//! a sequence, each of its elements is traversed; every other part of the
//! file — and the whole file, when `entities` is missing or not a sequence —
//! is left alone.
use vstd::prelude::*;

use crate::node::find_field;
use crate::node::get_field;
use crate::node::lookup;
use crate::node::str_eq;
use crate::node::wf_node;
use crate::node::Node;
use crate::walk::all_good;
use crate::walk::apply_pairs;
use crate::walk::arr_untouched;
use crate::walk::collect_pairs;
use crate::walk::first_key_index;
use crate::walk::lemma_first_key_index;
use crate::walk::lemma_first_key_index_same_keys;
use crate::walk::lemma_node_eq_refl;
use crate::walk::lemma_pairs_arr_at;
use crate::walk::lemma_pairs_arr_snoc;
use crate::walk::lemma_untouched_no_pairs;
use crate::walk::node_eq;
use crate::walk::pairs_arr;
use crate::walk::pairs_of;
use crate::walk::untouched;

verus! {

broadcast use
    vstd::seq::axiom_seq_index_decreases,
    vstd::seq::axiom_seq_subrange_decreases,
    vstd::std_specs::vec::axiom_vec_decreases_to_view,
    vstd::string::axiom_str_literal_len,
    vstd::string::axiom_str_literal_get_char,
;

/// The pairs a file contributes: those of the elements under its `entities`
/// sequence, in element order; none when that field is missing or is no
/// sequence.
pub open spec fn file_pairs(n: Node) -> Seq<(u32, u64)> {
    match get_field(n, "entities"@) {
        Some(Node::Arr(v)) => pairs_arr(v@),
        _ => Seq::<(u32, u64)>::empty(),
    }
}

/// A file whose traversed part is well formed.
pub open spec fn file_wf(n: Node) -> bool {
    match get_field(n, "entities"@) {
        Some(Node::Arr(v)) => forall|i: int| 0 <= i < v@.len() ==> wf_node(#[trigger] v@[i]),
        _ => true,
    }
}

/// What the write pass may change in a file's root object: only the first
/// `entities` entry, and only when it holds a sequence, whose elements then
/// relate to the old ones as `untouched` says; every other entry is kept
/// whole, as is any root that is not an object.
pub open spec fn file_entries_rel(a: Seq<(String, Node)>, b: Seq<(String, Node)>) -> bool
    decreases a.len(),
{
    a.len() == b.len() && (a.len() == 0 || {
        &&& b[0].0 == a[0].0
        &&& (if a[0].0@ == "entities"@ {
            (match a[0].1 {
                Node::Arr(v) => b[0].1 matches Node::Arr(w) && arr_untouched(v@, w@),
                _ => b[0].1 == a[0].1,
            }) && b.drop_first() == a.drop_first()
        } else {
            b[0].1 == a[0].1 && file_entries_rel(a.drop_first(), b.drop_first())
        })
    })
}

/// See `file_entries_rel`.
pub open spec fn file_untouched(n: Node, m: Node) -> bool {
    match n {
        Node::Obj(es) => m matches Node::Obj(bs) && file_entries_rel(es@, bs@),
        _ => m == n,
    }
}

/// Pointwise facts that make up `file_entries_rel`: same keys everywhere,
/// same values off the first `entities` entry, and the stated change there.
proof fn lemma_file_entries_rel_intro(a: Seq<(String, Node)>, b: Seq<(String, Node)>)
    requires
        a.len() == b.len(),
        forall|k: int| 0 <= k < a.len() ==> (#[trigger] b[k]).0 == a[k].0,
        forall|k: int|
            0 <= k < a.len() && k != first_key_index(a, "entities"@) ==> (#[trigger] b[k]).1
                == a[k].1,
        first_key_index(a, "entities"@) >= 0 ==> {
            let i = first_key_index(a, "entities"@);
            match a[i].1 {
                Node::Arr(v) => b[i].1 matches Node::Arr(w) && arr_untouched(v@, w@),
                _ => b[i].1 == a[i].1,
            }
        },
    ensures
        file_entries_rel(a, b),
    decreases a.len(),
{
    lemma_first_key_index(a, "entities"@);
    if a.len() > 0 {
        if a[0].0@ == "entities"@ {
            assert(first_key_index(a, "entities"@) == 0);
            assert forall|k: int| 0 <= k < a.drop_first().len() implies #[trigger] b.drop_first()[k]
                == a.drop_first()[k] by {
                assert(b[k + 1].0 == a[k + 1].0);
                assert(b[k + 1].1 == a[k + 1].1);
            }
            assert(b.drop_first() =~= a.drop_first());
        } else {
            let fki = first_key_index(a, "entities"@);
            assert(fki != 0);
            assert(fki >= 0 ==> first_key_index(a.drop_first(), "entities"@) == fki - 1);
            assert(fki < 0 ==> first_key_index(a.drop_first(), "entities"@) < 0);
            assert forall|k: int| 0 <= k < a.drop_first().len() implies (#[trigger] b.drop_first()[
                k]).0 == a.drop_first()[k].0 by {
                assert(b[k + 1].0 == a[k + 1].0);
            }
            assert forall|k: int|
                0 <= k < a.drop_first().len() && k != first_key_index(a.drop_first(), "entities"@)
                implies (#[trigger] b.drop_first()[k]).1 == a.drop_first()[k].1 by {
                assert(b[k + 1].1 == a[k + 1].1);
            }
            lemma_file_entries_rel_intro(a.drop_first(), b.drop_first());
        }
    }
}

/// Pointwise equality behind `file_entries_rel` when the entities entry
/// holds no pairs.
proof fn lemma_file_rel_eq(a: Seq<(String, Node)>, b: Seq<(String, Node)>)
    requires
        file_entries_rel(a, b),
        match lookup(a, "entities"@) {
            Some(Node::Arr(v)) => pairs_arr(v@).len() == 0,
            _ => true,
        },
    ensures
        a.len() == b.len(),
        forall|i: int|
            0 <= i < a.len() ==> (#[trigger] b[i]).0@ == a[i].0@ && node_eq(a[i].1, b[i].1),
    decreases a.len(),
{
    if a.len() > 0 {
        if a[0].0@ == "entities"@ {
            assert(lookup(a, "entities"@) == Some(a[0].1));
            match a[0].1 {
                Node::Arr(v) => {
                    let w = b[0].1->Arr_0;
                    assert(arr_untouched(v@, w@));
                    assert forall|t: int| 0 <= t < v@.len() implies node_eq(
                        #[trigger] v@[t],
                        w@[t],
                    ) by {
                        lemma_pairs_arr_at(v@, t);
                        lemma_untouched_no_pairs(v@[t], w@[t]);
                    }
                    assert(node_eq(a[0].1, b[0].1));
                },
                _ => {
                    assert(b[0].1 == a[0].1);
                    lemma_node_eq_refl(a[0].1);
                },
            }
            assert forall|i: int|
                0 <= i < a.len() implies (#[trigger] b[i]).0@ == a[i].0@ && node_eq(
                a[i].1,
                b[i].1,
            ) by {
                if i > 0 {
                    assert(b.drop_first()[i - 1] == a.drop_first()[i - 1]);
                    assert(b[i] == a[i]);
                    lemma_node_eq_refl(a[i].1);
                }
            }
        } else {
            assert(b[0].1 == a[0].1);
            lemma_node_eq_refl(a[0].1);
            assert(lookup(a, "entities"@) == lookup(a.drop_first(), "entities"@));
            lemma_file_rel_eq(a.drop_first(), b.drop_first());
            assert forall|i: int|
                0 <= i < a.len() implies (#[trigger] b[i]).0@ == a[i].0@ && node_eq(
                a[i].1,
                b[i].1,
            ) by {
                if i > 0 {
                    assert(b.drop_first()[i - 1] == b[i]);
                    assert(a.drop_first()[i - 1] == a[i]);
                }
            }
        }
    }
}

/// The skip law for one file: a file whose `entities` hold no qualifying
/// entry comes out of a run exactly as it went in — beside this, such a file
/// is never flagged for rewriting at all.
pub proof fn lemma_file_skip_whole(n: Node, m: Node)
    requires
        file_untouched(n, m),
        file_pairs(n).len() == 0,
    ensures
        node_eq(n, m),
{
    match n {
        Node::Obj(es) => {
            let bs = m->Obj_0@;
            lemma_first_key_index(es@, "entities"@);
            lemma_file_rel_eq(es@, bs);
            assert(node_eq(n, m));
        },
        _ => {
            assert(m == n);
            lemma_node_eq_refl(n);
        },
    }
}

/// Checks that a file's traversed part is well formed: callers establish
/// this before a run, and refuse the file otherwise.
pub fn check_file_wf(root: &Node) -> (r: bool)
    ensures
        r == file_wf(*root),
{
    match root {
        Node::Obj(es) => {
            match find_field(es, "entities") {
                Some(Node::Arr(v)) => {
                    let mut i: usize = 0;
                    while i < v.len()
                        invariant
                            0 <= i <= v@.len(),
                            get_field(*root, "entities"@) == Some(Node::Arr(*v)),
                            forall|t: int| 0 <= t < i ==> wf_node(#[trigger] v@[t]),
                        decreases v@.len() - i,
                    {
                        if !crate::node::check_wf(&v[i]) {
                            proof {
                                assert(get_field(*root, "entities"@)->0->Arr_0 == *v);
                                assert(!file_wf(*root));
                            }
                            return false;
                        }
                        i = i + 1;
                    }
                    proof {
                        assert(get_field(*root, "entities"@)->0->Arr_0 == *v);
                    }
                    true
                },
                _ => true,
            }
        },
        _ => true,
    }
}

/// The read pass over one file: appends the pairs of the elements under
/// `entities`, in element order.
pub fn collect_file(root: &Node, out: &mut Vec<(u32, u64)>)
    requires
        file_wf(*root),
    ensures
        final(out)@ == old(out)@ + file_pairs(*root),
        all_good(old(out)@) ==> all_good(final(out)@),
{
    let ghost base = out@;
    match root {
        Node::Obj(es) => {
            match find_field(es, "entities") {
                Some(Node::Arr(v)) => {
                    let mut i: usize = 0;
                    proof {
                        assert(v@.take(0) =~= Seq::<Node>::empty());
                        assert(out@ =~= base + pairs_arr(v@.take(0)));
                    }
                    while i < v.len()
                        invariant
                            0 <= i <= v@.len(),
                            file_wf(*root),
                            get_field(*root, "entities"@) == Some(Node::Arr(*v)),
                            out@ == base + pairs_arr(v@.take(i as int)),
                            all_good(base) ==> all_good(out@),
                        decreases v@.len() - i,
                    {
                        proof {
                            assert(get_field(*root, "entities"@)->0->Arr_0 == *v);
                            assert(wf_node(get_field(*root, "entities"@)->0->Arr_0@[i as int]));
                            assert(wf_node(v@[i as int]));
                        }
                        collect_pairs(&v[i], out);
                        proof {
                            lemma_pairs_arr_snoc(v@, i as int);
                        }
                        i = i + 1;
                    }
                    proof {
                        assert(v@.take(v@.len() as int) =~= v@);
                    }
                },
                _ => {},
            }
        },
        _ => {},
    }
    proof {
        assert(out@ =~= base + file_pairs(*root));
    }
}

/// The write pass over one file: pops one pair per qualifying node under
/// `entities`, in the read pass's order, writes the pairs in, and reports
/// whether anything was visited — the caller rewrites the file only then.
pub fn apply_file(root: Node, pool: &mut Vec<(u32, u64)>) -> (r: (Node, bool))
    requires
        file_wf(root),
        file_pairs(root).len() <= old(pool)@.len(),
        all_good(old(pool)@),
    ensures
        final(pool)@ == old(pool)@.take(old(pool)@.len() - file_pairs(root).len()),
        file_untouched(root, r.0),
        file_wf(r.0),
        file_pairs(r.0) == old(pool)@.skip(old(pool)@.len() - file_pairs(root).len()).reverse(),
        r.1 == (file_pairs(root).len() > 0),
{
    let ghost root0 = root;
    let ghost pool0 = pool@;
    let ghost l0 = pool0.len();
    let ghost total = file_pairs(root0).len() as int;
    match root {
        Node::Obj(es) => {
            let mut rest = es;
            let mut out: Vec<(String, Node)> = Vec::new();
            let mut done = false;
            let mut vis = false;
            let ghost es0 = rest@;
            proof {
                lemma_first_key_index(es0, "entities"@);
                assert(es0.skip(0) =~= es0);
            }
            while rest.len() > 0
                invariant
                    out@.len() + rest@.len() == es0.len(),
                    rest@ == es0.skip(out@.len() as int),
                    root0 matches Node::Obj(w) && w@ == es0,
                    file_wf(root0),
                    all_good(pool0),
                    total == file_pairs(root0).len(),
                    total <= l0 == pool0.len(),
                    forall|k: int| 0 <= k < out@.len() ==> (#[trigger] out@[k]).0 == es0[k].0,
                    forall|k: int|
                        0 <= k < out@.len() && k != first_key_index(es0, "entities"@)
                            ==> (#[trigger] out@[k]).1 == es0[k].1,
                    done == (0 <= first_key_index(es0, "entities"@) < out@.len()),
                    !done ==> pool@ == pool0,
                    done ==> pool@ == pool0.take(l0 - total),
                    done ==> {
                        let i = first_key_index(es0, "entities"@);
                        match es0[i].1 {
                            Node::Arr(v) => out@[i].1 matches Node::Arr(w) && arr_untouched(
                                v@,
                                w@,
                            ) && pairs_arr(w@) == pool0.skip(l0 - total).reverse() && (forall|
                                t: int,
                            |
                                0 <= t < w@.len() ==> wf_node(#[trigger] w@[t])),
                            _ => out@[i].1 == es0[i].1,
                        }
                    },
                    vis == (done && total > 0),
                decreases rest@.len(),
            {
                let ghost j = out@.len() as int;
                let (k, val) = rest.remove(0);
                proof {
                    assert(es0.skip(j)[0] == es0[j]);
                    assert((k, val) == es0[j]);
                    assert(rest@ =~= es0.skip(j + 1));
                    lemma_first_key_index(es0, "entities"@);
                }
                if !done && str_eq(k.as_str(), "entities") {
                    done = true;
                    proof {
                        assert(first_key_index(es0, "entities"@) == j) by {
                            if first_key_index(es0, "entities"@) < j {
                            } else {
                                assert(es0[j].0@ == "entities"@);
                            }
                        }
                        assert(lookup(es0, "entities"@) == Some(es0[j].1));
                        assert(get_field(root0, "entities"@) == Some(val));
                    }
                    match val {
                        Node::Arr(arr) => {
                            let wrapped = Node::Arr(arr);
                            proof {
                                assert(wf_node(wrapped));
                                assert(pairs_of(wrapped) =~= file_pairs(root0));
                            }
                            let (m, avis) = apply_pairs(wrapped, pool);
                            vis = avis;
                            proof {
                                assert(untouched(wrapped, m));
                                assert(m matches Node::Arr(w) && pairs_of(m) =~= pairs_arr(w@));
                            }
                            out.push((k, m));
                        },
                        other => {
                            proof {
                                assert(file_pairs(root0) =~= Seq::<(u32, u64)>::empty());
                                assert(pool@ =~= pool0.take(l0 - 0));
                            }
                            out.push((k, other));
                        },
                    }
                } else {
                    proof {
                        if !done {
                            assert(es0[j].0@ != "entities"@);
                            assert(first_key_index(es0, "entities"@) != j);
                        }
                    }
                    out.push((k, val));
                }
            }
            proof {
                assert(es0.take(es0.len() as int) =~= es0);
                assert(out@.len() == es0.len());
                lemma_first_key_index(es0, "entities"@);
                if !done {
                    assert(first_key_index(es0, "entities"@) < 0);
                    assert(lookup(es0, "entities"@) is None);
                    assert(file_pairs(root0) =~= Seq::<(u32, u64)>::empty());
                    assert(total == 0);
                    assert(pool@ =~= pool0.take(l0 - 0));
                }
            }
            let result = Node::Obj(out);
            proof {
                let bs = result->Obj_0@;
                assert forall|k: int| 0 <= k < bs.len() implies (#[trigger] bs[k]).0@
                    == es0[k].0@ by {}
                lemma_file_entries_rel_intro(es0, bs);
                assert(file_untouched(root0, result));
                lemma_first_key_index_same_keys(es0, bs, "entities"@);
                lemma_first_key_index(bs, "entities"@);
                let fki = first_key_index(es0, "entities"@);
                if fki >= 0 {
                    assert(lookup(bs, "entities"@) == Some(bs[fki].1));
                    match es0[fki].1 {
                        Node::Arr(v) => {
                            assert(file_pairs(result) == pool0.skip(l0 - total).reverse());
                            assert(file_wf(result));
                        },
                        _ => {
                            assert(bs[fki].1 == es0[fki].1);
                            assert(file_pairs(result) =~= Seq::<(u32, u64)>::empty());
                            assert(file_pairs(result) =~= pool0.skip(l0 - 0).reverse());
                            assert(file_wf(result));
                        },
                    }
                } else {
                    assert(lookup(bs, "entities"@) is None);
                    assert(file_pairs(result) =~= Seq::<(u32, u64)>::empty());
                    assert(file_pairs(result) =~= pool0.skip(l0 - 0).reverse());
                    assert(file_wf(result));
                }
                assert(pool@ =~= pool0.take(l0 - total));
            }
            (result, vis)
        },
        other => {
            proof {
                assert(get_field(other, "entities"@) is None);
                assert(file_pairs(root0) =~= Seq::<(u32, u64)>::empty());
                assert(pool0.take(l0 - 0) =~= pool0);
                assert(pool0.skip(l0 - 0).reverse() =~= Seq::<(u32, u64)>::empty());
                assert(file_untouched(root0, other));
                assert(file_wf(other));
            }
            (other, false)
        },
    }
}

} // verus!
