//! The two traversal passes over one subtree.
//!
//! Both passes walk a subtree depth first — a node itself first, then its
//! children in document order — and act on every node the filter accepts.
//! The read pass appends each visited entry's (item, amount) pair to a pool;
//! the write pass pops a pair off the end of the pool for each visited entry
//! and overwrites the entry's fields with it.
use vstd::prelude::*;

use crate::digits::canonical_u32;
use crate::digits::fmt_u32;
use crate::digits::lemma_parse_fmt;
use crate::digits::parse_u32;
use crate::digits::parse_u32_spec;
use crate::digits::u32_to_string;
use crate::node::entry_wf;
use crate::node::excluded_item;
use crate::node::filter;
use crate::node::find_field;
use crate::node::get_field;
use crate::node::lemma_lookup_some;
use crate::node::lookup;
use crate::node::qualifies;
use crate::node::str_eq;
use crate::node::wf_fields;
use crate::node::wf_node;
use crate::node::Node;
use vstd::pervasive::unreached;

verus! {

broadcast use
    vstd::seq::axiom_seq_index_decreases,
    vstd::seq::axiom_seq_subrange_decreases,
    vstd::std_specs::vec::axiom_vec_decreases_to_view,
    vstd::string::axiom_str_literal_len,
    vstd::string::axiom_str_literal_get_char,
;

/// The pair a qualifying node carries: its parsed item id and its amount.
pub open spec fn pair_of(n: Node) -> (u32, u64) {
    (
        match get_field(n, "item"@) {
            Some(Node::Str(s)) => match parse_u32_spec(s@) {
                Some(v) => v,
                None => 0,
            },
            _ => 0,
        },
        match get_field(n, "amount"@) {
            Some(Node::Num(a)) => a,
            _ => 0,
        },
    )
}

/// The pairs of all qualifying nodes of a subtree, in traversal order: the
/// node itself first, then its children in document order.
pub open spec fn pairs_of(n: Node) -> Seq<(u32, u64)>
    decreases n,
{
    let own = if qualifies(n) {
        seq![pair_of(n)]
    } else {
        Seq::<(u32, u64)>::empty()
    };
    own + (match n {
        Node::Arr(v) => pairs_arr(v@),
        Node::Obj(es) => pairs_entries(es@),
        _ => Seq::<(u32, u64)>::empty(),
    })
}

/// The pairs of a run of sibling nodes, left to right.
pub open spec fn pairs_arr(s: Seq<Node>) -> Seq<(u32, u64)>
    decreases s,
{
    if s.len() == 0 {
        Seq::<(u32, u64)>::empty()
    } else {
        pairs_of(s[0]) + pairs_arr(s.drop_first())
    }
}

/// The pairs of a run of object entries, in insertion order of the keys.
pub open spec fn pairs_entries(s: Seq<(String, Node)>) -> Seq<(u32, u64)>
    decreases s,
{
    if s.len() == 0 {
        Seq::<(u32, u64)>::empty()
    } else {
        pairs_of(s[0].1) + pairs_entries(s.drop_first())
    }
}

/// A pair whose id can be written back without falling under the reserved
/// ids; every pair read from a well-formed tree is such.
pub open spec fn good_pair(p: (u32, u64)) -> bool {
    !excluded_item(fmt_u32(p.0))
}

/// Every pair of the pool can be written back safely.
pub open spec fn all_good(s: Seq<(u32, u64)>) -> bool {
    forall|i: int| 0 <= i < s.len() ==> good_pair(#[trigger] s[i])
}

/// Splitting a run of siblings splits its pairs at the matching place.
pub proof fn lemma_pairs_arr_split(s: Seq<Node>, k: int)
    requires
        0 <= k <= s.len(),
    ensures
        pairs_arr(s) == pairs_arr(s.take(k)) + pairs_arr(s.skip(k)),
    decreases k,
{
    if k == 0 {
        assert(s.take(0) =~= Seq::<Node>::empty());
        assert(s.skip(0) =~= s);
        assert(pairs_arr(s) =~= pairs_arr(s.take(0)) + pairs_arr(s.skip(0)));
    } else {
        lemma_pairs_arr_split(s.drop_first(), k - 1);
        assert(s.take(k).drop_first() =~= s.drop_first().take(k - 1));
        assert(s.skip(k) =~= s.drop_first().skip(k - 1));
        assert(s.take(k)[0] == s[0]);
        assert(pairs_arr(s) =~= pairs_arr(s.take(k)) + pairs_arr(s.skip(k)));
    }
}

/// Splitting a run of object entries splits its pairs at the matching place.
pub proof fn lemma_pairs_entries_split(s: Seq<(String, Node)>, k: int)
    requires
        0 <= k <= s.len(),
    ensures
        pairs_entries(s) == pairs_entries(s.take(k)) + pairs_entries(s.skip(k)),
    decreases k,
{
    if k == 0 {
        assert(s.take(0) =~= Seq::<(String, Node)>::empty());
        assert(s.skip(0) =~= s);
        assert(pairs_entries(s) =~= pairs_entries(s.take(0)) + pairs_entries(s.skip(0)));
    } else {
        lemma_pairs_entries_split(s.drop_first(), k - 1);
        assert(s.take(k).drop_first() =~= s.drop_first().take(k - 1));
        assert(s.skip(k) =~= s.drop_first().skip(k - 1));
        assert(s.take(k)[0] == s[0]);
        assert(pairs_entries(s) =~= pairs_entries(s.take(k)) + pairs_entries(s.skip(k)));
    }
}

/// One more sibling adds exactly its own pairs at the end.
pub proof fn lemma_pairs_arr_snoc(s: Seq<Node>, j: int)
    requires
        0 <= j < s.len(),
    ensures
        pairs_arr(s.take(j + 1)) == pairs_arr(s.take(j)) + pairs_of(s[j]),
{
    reveal_with_fuel(pairs_arr, 2);
    let t = s.take(j + 1);
    lemma_pairs_arr_split(t, j);
    assert(t.take(j) =~= s.take(j));
    assert(t.skip(j) =~= seq![s[j]]);
    assert(seq![s[j]].drop_first() =~= Seq::<Node>::empty());
    assert(pairs_arr(seq![s[j]]) =~= pairs_of(s[j]));
}

/// One more object entry adds exactly its value's pairs at the end.
pub proof fn lemma_pairs_entries_snoc(s: Seq<(String, Node)>, j: int)
    requires
        0 <= j < s.len(),
    ensures
        pairs_entries(s.take(j + 1)) == pairs_entries(s.take(j)) + pairs_of(s[j].1),
{
    reveal_with_fuel(pairs_entries, 2);
    let t = s.take(j + 1);
    lemma_pairs_entries_split(t, j);
    assert(t.take(j) =~= s.take(j));
    assert(t.skip(j) =~= seq![s[j]]);
    assert(seq![s[j]].drop_first() =~= Seq::<(String, Node)>::empty());
    assert(pairs_entries(seq![s[j]]) =~= pairs_of(s[j].1));
}

/// How one object entry comes out of the write pass when its object was
/// visited with the pair `p`: an `item` slot now holds the id's decimal
/// string, an `amount` slot now holds the amount, and any other slot relates
/// to its old value as `untouched` says.
pub open spec fn entry_rewritten(e: (String, Node), f: (String, Node), p: (u32, u64)) -> bool
    decreases e,
{
    &&& f.0 == e.0
    &&& (if e.0@ == "item"@ {
        f.1 matches Node::Str(s) && s@ == fmt_u32(p.0)
    } else if e.0@ == "amount"@ {
        f.1 == Node::Num(p.1)
    } else {
        untouched(e.1, f.1)
    })
}

/// All entries of a visited object, rewritten with the pair `p`.
pub open spec fn entries_rewritten(
    a: Seq<(String, Node)>,
    b: Seq<(String, Node)>,
    p: (u32, u64),
) -> bool
    decreases a,
{
    a.len() == b.len() && forall|k: int|
        0 <= k < a.len() ==> entry_rewritten(#[trigger] a[k], b[k], p)
}

/// Sibling runs related elementwise by `untouched`.
pub open spec fn arr_untouched(a: Seq<Node>, b: Seq<Node>) -> bool
    decreases a,
{
    a.len() == b.len() && forall|k: int| 0 <= k < a.len() ==> untouched(#[trigger] a[k], b[k])
}

/// Entry runs of an unvisited object: keys kept, values related by
/// `untouched`.
pub open spec fn entries_untouched(a: Seq<(String, Node)>, b: Seq<(String, Node)>) -> bool
    decreases a,
{
    a.len() == b.len() && forall|k: int|
        0 <= k < a.len() ==> (#[trigger] b[k]).0 == a[k].0 && untouched(a[k].1, b[k].1)
}

/// One object entry of a visited node, after the write pass: the key is
/// kept; an `item` slot now holds some string, an `amount` slot some integer
/// (which pair they hold is stated through the subtree's pairs); any other
/// slot relates to its old value as `untouched` says.
pub open spec fn entry_reslotted(e: (String, Node), f: (String, Node)) -> bool
    decreases e,
{
    &&& f.0 == e.0
    &&& (if e.0@ == "item"@ {
        f.1 is Str
    } else if e.0@ == "amount"@ {
        f.1 is Num
    } else {
        untouched(e.1, f.1)
    })
}

/// All entries of a visited object, after the write pass.
pub open spec fn entries_reslotted(a: Seq<(String, Node)>, b: Seq<(String, Node)>) -> bool
    decreases a,
{
    a.len() == b.len() && forall|k: int|
        0 <= k < a.len() ==> entry_reslotted(#[trigger] a[k], b[k])
}

/// What the write pass may change in a subtree: nothing but the `item` and
/// `amount` slots of qualifying nodes.
pub open spec fn untouched(n: Node, m: Node) -> bool
    decreases n,
{
    if qualifies(n) {
        match n {
            Node::Obj(a) => m matches Node::Obj(b) && entries_reslotted(a@, b@),
            _ => false,
        }
    } else {
        match n {
            Node::Arr(a) => m matches Node::Arr(b) && arr_untouched(a@, b@),
            Node::Obj(a) => m matches Node::Obj(b) && entries_untouched(a@, b@),
            _ => m == n,
        }
    }
}

/// The write pass keeps every node's kind, and keeps every leaf whole.
pub proof fn lemma_untouched_kind(a: Node, b: Node)
    requires
        untouched(a, b),
    ensures
        a is Obj <==> b is Obj,
        a is Arr <==> b is Arr,
        !(a is Obj) && !(a is Arr) ==> b == a,
{
}

/// Deep equality of two subtrees: same shape, same text, same numbers.
pub open spec fn node_eq(a: Node, b: Node) -> bool
    decreases a,
{
    match (a, b) {
        (Node::Null, Node::Null) => true,
        (Node::Bool(x), Node::Bool(y)) => x == y,
        (Node::Num(x), Node::Num(y)) => x == y,
        (Node::NumText(x), Node::NumText(y)) => x@ == y@,
        (Node::Str(x), Node::Str(y)) => x@ == y@,
        (Node::Arr(x), Node::Arr(y)) => x@.len() == y@.len() && (forall|i: int|
            0 <= i < x@.len() ==> node_eq(#[trigger] x@[i], y@[i])),
        (Node::Obj(x), Node::Obj(y)) => x@.len() == y@.len() && (forall|i: int|
            0 <= i < x@.len() ==> (#[trigger] x@[i]).0@ == y@[i].0@ && node_eq(x@[i].1, y@[i].1)),
        _ => false,
    }
}

/// Every subtree equals itself deeply.
pub proof fn lemma_node_eq_refl(n: Node)
    ensures
        node_eq(n, n),
    decreases n,
{
    match n {
        Node::Arr(v) => {
            assert forall|i: int| 0 <= i < v@.len() implies node_eq(#[trigger] v@[i], v@[i]) by {
                assert(decreases_to!(n => n->Arr_0));
                assert(n->Arr_0 == v);
                assert(decreases_to!(v => v@));
                assert(decreases_to!(v@ => v@[i]));
                assert(decreases_to!(n => v@[i]));
                lemma_node_eq_refl(v@[i]);
            }
        },
        Node::Obj(es) => {
            assert forall|i: int|
                0 <= i < es@.len() implies (#[trigger] es@[i]).0@ == es@[i].0@ && node_eq(
                es@[i].1,
                es@[i].1,
            ) by {
                assert(decreases_to!(n => n->Obj_0));
                assert(n->Obj_0 == es);
                assert(decreases_to!(es => es@));
                assert(decreases_to!(es@ => es@[i]));
                assert(decreases_to!(es@[i] => es@[i].1));
                assert(decreases_to!(n => es@[i].1));
                lemma_node_eq_refl(es@[i].1);
            }
        },
        _ => {},
    }
}

/// In a sibling run without pairs, no single sibling has any.
pub proof fn lemma_pairs_arr_at(s: Seq<Node>, i: int)
    requires
        0 <= i < s.len(),
        pairs_arr(s).len() == 0,
    ensures
        pairs_of(s[i]).len() == 0,
{
    lemma_pairs_arr_split(s, i);
    assert(s.skip(i)[0] == s[i]);
    assert(pairs_arr(s.skip(i)) == pairs_of(s[i]) + pairs_arr(s.skip(i).drop_first()));
}

/// In an entry run without pairs, no single entry's value has any.
pub proof fn lemma_pairs_entries_at(s: Seq<(String, Node)>, i: int)
    requires
        0 <= i < s.len(),
        pairs_entries(s).len() == 0,
    ensures
        pairs_of(s[i].1).len() == 0,
{
    lemma_pairs_entries_split(s, i);
    assert(s.skip(i)[0] == s[i]);
    assert(pairs_entries(s.skip(i)) == pairs_of(s[i].1) + pairs_entries(s.skip(i).drop_first()));
}

/// The skip law for one subtree: where the read pass finds nothing, the
/// write pass hands the subtree back exactly as it was.
pub proof fn lemma_untouched_no_pairs(n: Node, m: Node)
    requires
        untouched(n, m),
        pairs_of(n).len() == 0,
    ensures
        node_eq(n, m),
    decreases n,
{
    assert(!qualifies(n));
    match n {
        Node::Arr(v) => {
            let w = m->Arr_0;
            assert(arr_untouched(v@, w@));
            assert forall|i: int| 0 <= i < v@.len() implies node_eq(#[trigger] v@[i], w@[i]) by {
                lemma_pairs_arr_at(v@, i);
                assert(decreases_to!(n => n->Arr_0));
                assert(n->Arr_0 == v);
                assert(decreases_to!(v => v@));
                assert(decreases_to!(v@ => v@[i]));
                assert(decreases_to!(n => v@[i]));
                lemma_untouched_no_pairs(v@[i], w@[i]);
            }
        },
        Node::Obj(es) => {
            let bs = m->Obj_0;
            assert(entries_untouched(es@, bs@));
            assert forall|i: int|
                0 <= i < es@.len() implies (#[trigger] es@[i]).0@ == bs@[i].0@ && node_eq(
                es@[i].1,
                bs@[i].1,
            ) by {
                lemma_pairs_entries_at(es@, i);
                assert(decreases_to!(n => n->Obj_0));
                assert(n->Obj_0 == es);
                assert(decreases_to!(es => es@));
                assert(decreases_to!(es@ => es@[i]));
                assert(decreases_to!(es@[i] => es@[i].1));
                assert(decreases_to!(n => es@[i].1));
                lemma_untouched_no_pairs(es@[i].1, bs@[i].1);
            }
        },
        _ => {
            assert(m == n);
            lemma_node_eq_refl(n);
        },
    }
}

/// The first entry with a key, by index; negative when there is none.
pub open spec fn first_key_index(s: Seq<(String, Node)>, key: Seq<char>) -> int
    decreases s.len(),
{
    if s.len() == 0 {
        -1
    } else if s[0].0@ == key {
        0
    } else {
        let r = first_key_index(s.drop_first(), key);
        if r < 0 {
            -1
        } else {
            r + 1
        }
    }
}

/// `lookup` finds exactly the entry at the first matching index.
pub proof fn lemma_first_key_index(s: Seq<(String, Node)>, key: Seq<char>)
    ensures
        lookup(s, key) is Some <==> first_key_index(s, key) >= 0,
        first_key_index(s, key) >= 0 ==> {
            let i = first_key_index(s, key);
            &&& i < s.len()
            &&& s[i].0@ == key
            &&& lookup(s, key) == Some(s[i].1)
        },
        forall|k: int|
            0 <= k < s.len() && (#[trigger] s[k]).0@ == key ==> 0 <= first_key_index(s, key) <= k,
    decreases s.len(),
{
    if s.len() > 0 && s[0].0@ != key {
        lemma_first_key_index(s.drop_first(), key);
        assert forall|k: int|
            0 <= k < s.len() && (#[trigger] s[k]).0@ == key implies 0 <= first_key_index(s, key)
            <= k by {
            assert(s.drop_first()[k - 1] == s[k]);
        }
    }
}

/// Two entry runs with the same keys agree on where a key first stands.
pub proof fn lemma_first_key_index_same_keys(
    a: Seq<(String, Node)>,
    b: Seq<(String, Node)>,
    key: Seq<char>,
)
    requires
        a.len() == b.len(),
        forall|k: int| 0 <= k < a.len() ==> (#[trigger] b[k]).0@ == a[k].0@,
    ensures
        first_key_index(a, key) == first_key_index(b, key),
    decreases a.len(),
{
    if a.len() > 0 && a[0].0@ != key {
        assert(b[0].0@ == a[0].0@);
        assert forall|k: int| 0 <= k < a.drop_first().len() implies
            (#[trigger] b.drop_first()[k]).0@ == a.drop_first()[k].0@ by {
            assert(b.drop_first()[k] == b[k + 1]);
            assert(a.drop_first()[k] == a[k + 1]);
        }
        lemma_first_key_index_same_keys(a.drop_first(), b.drop_first(), key);
    }
}

/// Reads the (item, amount) pair off a qualifying, well-formed node.
fn read_pair(n: &Node) -> (p: (u32, u64))
    requires
        qualifies(*n),
        wf_fields(*n),
    ensures
        p == pair_of(*n),
        good_pair(p),
{
    match n {
        Node::Obj(es) => {
            let item_id: u32 = match find_field(es, "item") {
                Some(Node::Str(s)) => {
                    proof {
                        lemma_lookup_some(es@, "item"@);
                        let i = choose|i: int|
                            0 <= i < es@.len() && #[trigger] es@[i].0@ == "item"@ && es@[i].1
                                == Node::Str(*s);
                        assert(entry_wf(es@[i]));
                        assert(canonical_u32(s@));
                    }
                    match parse_u32(s.as_str()) {
                        Some(v) => {
                            proof {
                                assert(fmt_u32(v) == s@);
                            }
                            v
                        },
                        None => unreached(),
                    }
                },
                _ => unreached(),
            };
            proof {
                lemma_lookup_some(es@, "amount"@);
                let i = choose|i: int|
                    0 <= i < es@.len() && #[trigger] es@[i].0@ == "amount"@ && es@[i].1
                        == get_field(*n, "amount"@)->0;
                assert(entry_wf(es@[i]));
                assert(get_field(*n, "amount"@) matches Some(Node::Num(_)));
            }
            let amount: u64 = match find_field(es, "amount") {
                Some(Node::Num(a)) => *a,
                _ => unreached(),
            };
            (item_id, amount)
        },
        _ => unreached(),
    }
}

/// The read pass over one subtree: appends the pair of every qualifying node
/// to the pool, in traversal order.
pub fn collect_pairs(n: &Node, out: &mut Vec<(u32, u64)>)
    requires
        wf_node(*n),
    ensures
        final(out)@ == old(out)@ + pairs_of(*n),
        all_good(old(out)@) ==> all_good(final(out)@),
    decreases *n,
{
    if filter(n) {
        let p = read_pair(n);
        out.push(p);
    }
    let ghost base = out@;
    let ghost own = if qualifies(*n) {
        seq![pair_of(*n)]
    } else {
        Seq::<(u32, u64)>::empty()
    };
    match n {
        Node::Arr(v) => {
            let mut i: usize = 0;
            while i < v.len()
                invariant
                    0 <= i <= v@.len(),
                    *n == Node::Arr(*v),
                    wf_node(*n),
                    out@ == base + pairs_arr(v@.take(i as int)),
                    all_good(base) ==> all_good(out@),
                decreases v@.len() - i,
            {
                proof {
                    assert(decreases_to!(*n => n->Arr_0));
                    assert(n->Arr_0 == *v);
                    assert(decreases_to!(*v => v@));
                    assert(decreases_to!(v@ => v@[i as int]));
                    assert(decreases_to!(*n => v@[i as int]));
                    assert(wf_node(v@[i as int]));
                }
                collect_pairs(&v[i], out);
                proof {
                    lemma_pairs_arr_snoc(v@, i as int);
                }
                i = i + 1;
            }
            proof {
                assert(v@.take(v@.len() as int) =~= v@);
                assert(out@ =~= base + pairs_arr(v@));
            }
        },
        Node::Obj(es) => {
            let mut i: usize = 0;
            while i < es.len()
                invariant
                    0 <= i <= es@.len(),
                    *n == Node::Obj(*es),
                    wf_node(*n),
                    out@ == base + pairs_entries(es@.take(i as int)),
                    all_good(base) ==> all_good(out@),
                decreases es@.len() - i,
            {
                proof {
                    assert(decreases_to!(*n => n->Obj_0));
                    assert(n->Obj_0 == *es);
                    assert(decreases_to!(*es => es@));
                    assert(decreases_to!(es@ => es@[i as int]));
                    assert(decreases_to!(es@[i as int] => es@[i as int].1));
                    assert(decreases_to!(*n => es@[i as int].1));
                    assert(wf_node(es@[i as int].1));
                }
                collect_pairs(&es[i].1, out);
                proof {
                    lemma_pairs_entries_snoc(es@, i as int);
                }
                i = i + 1;
            }
            proof {
                assert(es@.take(es@.len() as int) =~= es@);
                assert(out@ =~= base + pairs_entries(es@));
            }
        },
        _ => {
            proof {
                assert(out@ =~= base + Seq::<(u32, u64)>::empty());
            }
        },
    }
    proof {
        assert(base =~= old(out)@ + own);
        assert(out@ =~= old(out)@ + pairs_of(*n));
    }
}

/// The write pass over one subtree: pops one pair off the end of the pool
/// for each qualifying node, in the same traversal order as the read pass,
/// and overwrites the node's `item` and `amount` slots with it. Returns the
/// rewritten subtree and whether any node of it was visited.
///
/// The contract states the two-pass alignment: exactly as many pairs leave
/// the pool as the read pass would collect here, the rewritten subtree's own
/// pairs are exactly the consumed ones in reverse order of consumption, and
/// nothing else of the subtree changes.
#[verifier::rlimit(100)]
pub fn apply_pairs(n: Node, pool: &mut Vec<(u32, u64)>) -> (r: (Node, bool))
    requires
        wf_node(n),
        pairs_of(n).len() <= old(pool)@.len(),
        all_good(old(pool)@),
    ensures
        final(pool)@ == old(pool)@.take(old(pool)@.len() - pairs_of(n).len()),
        untouched(n, r.0),
        wf_node(r.0),
        pairs_of(r.0) == old(pool)@.skip(old(pool)@.len() - pairs_of(n).len()).reverse(),
        r.1 == (pairs_of(n).len() > 0),
    decreases n,
{
    let ghost n0 = n;
    let ghost full = old(pool)@;
    let q = filter(&n);
    let (qi, qa): (u32, u64) = if q {
        proof {
            assert(pairs_of(n).len() >= 1);
        }
        match pool.pop() {
            Some(p) => p,
            None => unreached(),
        }
    } else {
        (0, 0)
    };
    let ghost pool1 = pool@;
    proof {
        if q {
            assert((qi, qa) == full.last());
            assert(pool1 =~= full.drop_last());
            assert(good_pair((qi, qa)));
        } else {
            assert(pool1 == full);
        }
    }
    match n {
        Node::Null => {
            proof {
                assert(pairs_of(n0) =~= Seq::<(u32, u64)>::empty());
                assert(full.take(full.len() as int) =~= full);
                assert(full.skip(full.len() as int).reverse() =~= Seq::<(u32, u64)>::empty());
            }
            (Node::Null, false)
        },
        Node::Bool(b) => {
            proof {
                assert(pairs_of(n0) =~= Seq::<(u32, u64)>::empty());
                assert(full.take(full.len() as int) =~= full);
                assert(full.skip(full.len() as int).reverse() =~= Seq::<(u32, u64)>::empty());
            }
            (Node::Bool(b), false)
        },
        Node::Num(u) => {
            proof {
                assert(pairs_of(n0) =~= Seq::<(u32, u64)>::empty());
                assert(full.take(full.len() as int) =~= full);
                assert(full.skip(full.len() as int).reverse() =~= Seq::<(u32, u64)>::empty());
            }
            (Node::Num(u), false)
        },
        Node::NumText(t) => {
            proof {
                assert(pairs_of(n0) =~= Seq::<(u32, u64)>::empty());
                assert(full.take(full.len() as int) =~= full);
                assert(full.skip(full.len() as int).reverse() =~= Seq::<(u32, u64)>::empty());
            }
            (Node::NumText(t), false)
        },
        Node::Str(t) => {
            proof {
                assert(pairs_of(n0) =~= Seq::<(u32, u64)>::empty());
                assert(full.take(full.len() as int) =~= full);
                assert(full.skip(full.len() as int).reverse() =~= Seq::<(u32, u64)>::empty());
            }
            (Node::Str(t), false)
        },
        Node::Arr(v) => {
            let mut rest = v;
            let mut out_v: Vec<Node> = Vec::new();
            let mut vis = false;
            let ghost v0 = rest@;
            let ghost l1 = pool1.len();
            proof {
                assert(!qualifies(n0));
                assert(pairs_of(n0) =~= pairs_arr(v0));
                assert(v0.skip(0) =~= v0);
                assert(v0.take(0) =~= Seq::<Node>::empty());
                assert(pool1.take(l1 as int) =~= pool1);
                assert(pool1.skip(l1 as int).reverse() =~= Seq::<(u32, u64)>::empty());
            }
            while rest.len() > 0
                invariant
                    out_v@.len() + rest@.len() == v0.len(),
                    rest@ == v0.skip(out_v@.len() as int),
                    n == n0,
                    n0 matches Node::Arr(w) && w@ == v0,
                    forall|k: int| 0 <= k < v0.len() ==> wf_node(#[trigger] v0[k]),
                    pairs_arr(v0).len() <= l1 == pool1.len(),
                    all_good(pool1),
                    pool@ == pool1.take(l1 - pairs_arr(v0.take(out_v@.len() as int)).len()),
                    arr_untouched(v0.take(out_v@.len() as int), out_v@),
                    forall|k: int| 0 <= k < out_v@.len() ==> wf_node(#[trigger] out_v@[k]),
                    pairs_arr(out_v@) == pool1.skip(
                        l1 - pairs_arr(v0.take(out_v@.len() as int)).len(),
                    ).reverse(),
                    vis == (pairs_arr(v0.take(out_v@.len() as int)).len() > 0),
                decreases rest@.len(),
            {
                let ghost j = out_v@.len() as int;
                let ghost c_head = pairs_arr(v0.take(j)).len() as int;
                let e = rest.remove(0);
                proof {
                    assert(v0.skip(j)[0] == v0[j]);
                    assert(e == v0[j]);
                    assert(rest@ =~= v0.skip(j + 1));
                    lemma_pairs_arr_split(v0, j);
                    assert(v0.skip(j).drop_first() =~= v0.skip(j + 1));
                    assert(pairs_arr(v0.skip(j)) == pairs_of(v0[j]) + pairs_arr(v0.skip(j + 1)));
                    assert(c_head + pairs_of(e).len() <= l1);
                    assert(pool@.len() == l1 - c_head);
                    assert forall|k: int| 0 <= k < pool@.len() implies good_pair(
                        #[trigger] pool@[k],
                    ) by {
                        assert(pool@[k] == pool1[k]);
                    }
                    assert(decreases_to!(n0 => n0->Arr_0));
                    assert(decreases_to!(n0->Arr_0 => n0->Arr_0@));
                    assert(n0->Arr_0@ == v0);
                    assert(decreases_to!(v0 => v0[j]));
                    assert(decreases_to!(n0 => e));
                }
                let (m, cvis) = apply_pairs(e, pool);
                proof {
                    lemma_pairs_arr_snoc(v0, j);
                    let c = pairs_of(e).len() as int;
                    assert(pool@ =~= pool1.take(l1 - c_head - c));
                    lemma_pairs_arr_snoc(out_v@.push(m), j);
                    assert(out_v@.push(m).take(j) =~= out_v@);
                    assert(out_v@.push(m).take(j + 1) =~= out_v@.push(m));
                    assert(pairs_arr(out_v@.push(m)) == pairs_arr(out_v@) + pairs_of(m));
                    assert(pairs_of(m) == pool1.take(l1 - c_head).skip(l1 - c_head - c).reverse());
                    assert(pairs_arr(out_v@.push(m)) =~= pool1.skip(l1 - c_head - c).reverse());
                    assert(v0.take(j + 1) =~= v0.take(j).push(v0[j]));
                }
                out_v.push(m);
                vis = vis || cvis;
            }
            proof {
                assert(v0.take(v0.len() as int) =~= v0);
                assert(out_v@.len() == v0.len());
                assert(arr_untouched(v0, out_v@));
                assert(untouched(n0, Node::Arr(out_v)));
                assert(!qualifies(Node::Arr(out_v)));
                assert(pairs_of(Node::Arr(out_v)) =~= pairs_arr(out_v@));
                assert(wf_node(Node::Arr(out_v)));
            }
            (Node::Arr(out_v), vis)
        },
        Node::Obj(es) => {
            let mut rest = es;
            let mut out_e: Vec<(String, Node)> = Vec::new();
            let mut vis = q;
            let ghost es0 = rest@;
            let ghost l1 = pool1.len();
            proof {
                assert(pairs_of(n0) =~= (if q {
                    seq![pair_of(n0)]
                } else {
                    Seq::<(u32, u64)>::empty()
                }) + pairs_entries(es0));
                assert(pairs_entries(es0).len() <= l1);
                if q {
                    assert(wf_fields(n0));
                    assert(forall|k: int| 0 <= k < es0.len() ==> entry_wf(#[trigger] es0[k]));
                }
                assert(es0.skip(0) =~= es0);
                assert(es0.take(0) =~= Seq::<(String, Node)>::empty());
                assert(pool1.take(l1 as int) =~= pool1);
                assert(pool1.skip(l1 as int).reverse() =~= Seq::<(u32, u64)>::empty());
            }
            while rest.len() > 0
                invariant
                    out_e@.len() + rest@.len() == es0.len(),
                    rest@ == es0.skip(out_e@.len() as int),
                    n == n0,
                    n0 matches Node::Obj(w) && w@ == es0,
                    q == qualifies(n0),
                    q ==> good_pair((qi, qa)),
                    q ==> forall|k: int| 0 <= k < es0.len() ==> entry_wf(#[trigger] es0[k]),
                    forall|k: int| 0 <= k < es0.len() ==> wf_node(#[trigger] es0[k].1),
                    pairs_entries(es0).len() <= l1 == pool1.len(),
                    all_good(pool1),
                    pool@ == pool1.take(l1 - pairs_entries(es0.take(out_e@.len() as int)).len()),
                    q ==> entries_rewritten(es0.take(out_e@.len() as int), out_e@, (qi, qa)),
                    !q ==> entries_untouched(es0.take(out_e@.len() as int), out_e@),
                    forall|k: int| 0 <= k < out_e@.len() ==> wf_node((#[trigger] out_e@[k]).1),
                    q ==> forall|k: int| 0 <= k < out_e@.len() ==> entry_wf(#[trigger] out_e@[k]),
                    pairs_entries(out_e@) == pool1.skip(
                        l1 - pairs_entries(es0.take(out_e@.len() as int)).len(),
                    ).reverse(),
                    vis == (q || pairs_entries(es0.take(out_e@.len() as int)).len() > 0),
                decreases rest@.len(),
            {
                let ghost j = out_e@.len() as int;
                let ghost c_head = pairs_entries(es0.take(j)).len() as int;
                let (k, val) = rest.remove(0);
                proof {
                    assert(es0.skip(j)[0] == es0[j]);
                    assert((k, val) == es0[j]);
                    assert(rest@ =~= es0.skip(j + 1));
                    lemma_pairs_entries_split(es0, j);
                    assert(es0.skip(j).drop_first() =~= es0.skip(j + 1));
                    assert(pairs_entries(es0.skip(j)) == pairs_of(es0[j].1) + pairs_entries(
                        es0.skip(j + 1),
                    ));
                    assert(c_head + pairs_of(val).len() <= l1);
                }
                let is_item = q && str_eq(k.as_str(), "item");
                let is_amount = q && str_eq(k.as_str(), "amount");
                let new_val: Node = if is_item {
                    let written = u32_to_string(qi);
                    proof {
                        assert(entry_wf(es0[j]));
                        assert(es0[j].1 is Str);
                        assert(pairs_of(val) =~= Seq::<(u32, u64)>::empty());
                        assert(written@ == fmt_u32(qi));
                        lemma_parse_fmt(qi);
                        assert(pairs_of(Node::Str(written)) =~= Seq::<(u32, u64)>::empty());
                    }
                    Node::Str(written)
                } else if is_amount {
                    proof {
                        assert(entry_wf(es0[j]));
                        assert(es0[j].1 is Num);
                        assert(pairs_of(val) =~= Seq::<(u32, u64)>::empty());
                        assert(pairs_of(Node::Num(qa)) =~= Seq::<(u32, u64)>::empty());
                    }
                    Node::Num(qa)
                } else {
                    proof {
                        assert(pool@.len() == l1 - c_head);
                        assert forall|t: int| 0 <= t < pool@.len() implies good_pair(
                            #[trigger] pool@[t],
                        ) by {
                            assert(pool@[t] == pool1[t]);
                        }
                        assert(decreases_to!(n0 => n0->Obj_0));
                        assert(decreases_to!(n0->Obj_0 => n0->Obj_0@));
                        assert(n0->Obj_0@ == es0);
                        assert(decreases_to!(es0 => es0[j]));
                        assert(decreases_to!(es0[j] => es0[j].1));
                        assert(val == es0[j].1);
                        assert(decreases_to!(n0 => val));
                        assert(wf_node(val));
                    }
                    let (m, cvis) = apply_pairs(val, pool);
                    proof {
                        let c = pairs_of(val).len() as int;
                        assert(pool@ =~= pool1.take(l1 - c_head - c));
                    }
                    vis = vis || cvis;
                    m
                };
                proof {
                    reveal_strlit("item");
                    reveal_strlit("amount");
                    assert("item"@.len() != "amount"@.len());
                    let c = pairs_of(es0[j].1).len() as int;
                    lemma_pairs_entries_snoc(es0, j);
                    let pushed = out_e@.push((k, new_val));
                    assert(pairs_of(new_val) =~= pool1.take(l1 - c_head).skip(
                        l1 - c_head - c,
                    ).reverse());
                    lemma_pairs_entries_snoc(pushed, j);
                    assert(pushed.take(j) =~= out_e@);
                    assert(pushed.take(j + 1) =~= pushed);
                    assert(pairs_entries(pushed) == pairs_entries(out_e@) + pairs_of(new_val));
                    assert(pairs_entries(pushed) =~= pool1.skip(l1 - c_head - c).reverse());
                    assert(es0.take(j + 1) =~= es0.take(j).push(es0[j]));
                    if is_item {
                        assert(entry_rewritten(es0[j], (k, new_val), (qi, qa)));
                    }
                }
                out_e.push((k, new_val));
            }
            proof {
                assert(es0.take(es0.len() as int) =~= es0);
                assert(out_e@.len() == es0.len());
            }
            let result = Node::Obj(out_e);
            proof {
                let bs = result->Obj_0@;
                let ce = pairs_entries(es0).len() as int;
                if q {
                    assert(entries_rewritten(es0, bs, (qi, qa)));
                    assert forall|k: int| 0 <= k < bs.len() implies (#[trigger] bs[k]).0@
                        == es0[k].0@ by {
                        assert(entry_rewritten(es0[k], bs[k], (qi, qa)));
                    }
                    lemma_first_key_index_same_keys(es0, bs, "item"@);
                    lemma_first_key_index(es0, "item"@);
                    lemma_first_key_index(bs, "item"@);
                    let ii = first_key_index(es0, "item"@);
                    assert(lookup(es0, "item"@) is Some);
                    assert(entry_rewritten(es0[ii], bs[ii], (qi, qa)));
                    assert(lookup(bs, "item"@) matches Some(Node::Str(s)) && s@ == fmt_u32(qi));
                    lemma_first_key_index_same_keys(es0, bs, "amount"@);
                    lemma_first_key_index(es0, "amount"@);
                    lemma_first_key_index(bs, "amount"@);
                    let ai = first_key_index(es0, "amount"@);
                    assert(lookup(es0, "amount"@) is Some);
                    assert(entry_rewritten(es0[ai], bs[ai], (qi, qa)));
                    assert(lookup(bs, "amount"@) == Some(Node::Num(qa)));
                    lemma_parse_fmt(qi);
                    assert(qualifies(result));
                    assert(pair_of(result) == (qi, qa));
                    assert(wf_fields(result)) by {
                        assert forall|k: int| 0 <= k < bs.len() implies entry_wf(
                            #[trigger] bs[k],
                        ) by {}
                    }
                    assert(wf_node(result));
                    assert(entries_rewritten(n0->Obj_0@, result->Obj_0@, (qi, qa)));
                    assert forall|k: int| 0 <= k < es0.len() implies entry_reslotted(
                        #[trigger] es0[k],
                        bs[k],
                    ) by {
                        assert(entry_rewritten(es0[k], bs[k], (qi, qa)));
                    }
                    assert(entries_reslotted(n0->Obj_0@, result->Obj_0@));
                    assert(untouched(n0, result));
                    // the subtree's pairs: its own pair first, then the
                    // children's, which together are the consumed block of
                    // the pool read backwards
                    assert(pairs_of(result) == seq![(qi, qa)] + pairs_entries(bs));
                    assert(pairs_entries(bs) == pool1.skip(l1 - ce).reverse());
                    assert(pairs_of(n0).len() == 1 + ce);
                    assert(pairs_of(result) =~= full.skip(full.len() - (1 + ce)).reverse());
                    assert(pool@ =~= full.take(full.len() - (1 + ce)));
                } else {
                    assert(entries_untouched(es0, bs));
                    assert forall|k: int| 0 <= k < bs.len() implies (#[trigger] bs[k]).0@
                        == es0[k].0@ by {}
                    lemma_first_key_index_same_keys(es0, bs, "item"@);
                    lemma_first_key_index(es0, "item"@);
                    lemma_first_key_index(bs, "item"@);
                    if lookup(bs, "item"@) is Some {
                        let ii = first_key_index(es0, "item"@);
                        assert(untouched(es0[ii].1, bs[ii].1));
                        lemma_untouched_kind(es0[ii].1, bs[ii].1);
                        if bs[ii].1 is Str {
                            assert(bs[ii].1 == es0[ii].1);
                            lemma_first_key_index_same_keys(es0, bs, "amount"@);
                            lemma_first_key_index(es0, "amount"@);
                            lemma_first_key_index(bs, "amount"@);
                            if lookup(bs, "amount"@) is Some {
                                let ai = first_key_index(es0, "amount"@);
                                assert(untouched(es0[ai].1, bs[ai].1));
                                lemma_untouched_kind(es0[ai].1, bs[ai].1);
                            }
                        }
                    }
                    assert(!qualifies(result));
                    assert(wf_node(result));
                    assert(untouched(n0, result));
                    assert(pairs_of(result) =~= pairs_entries(bs));
                    assert(pairs_of(n0).len() == ce);
                    assert(pairs_of(result) =~= full.skip(full.len() - ce).reverse());
                    assert(pool@ =~= full.take(full.len() - ce));
                }
            }
            (result, vis)
        },
    }
}

} // verus!
