//! The tree model of one parsed map file.
//!
//! A map file is a whole-document structured value: null, boolean, number,
//! string, sequence, or a mapping from string keys to values with insertion
//! order kept. A pickup entry is any object in the file whose `item` field is
//! a string and whose `amount` field is a number; entries whose `item` is one
//! of four reserved ids are left alone, because shuffling those risks making
//! game areas unreachable.
use vstd::prelude::*;

use crate::digits::canonical_u32;
use crate::digits::is_canonical_u32;

verus! {

broadcast use
    vstd::seq::axiom_seq_index_decreases,
    vstd::seq::axiom_seq_subrange_decreases,
    vstd::std_specs::vec::axiom_vec_decreases_to_view,
    vstd::string::axiom_str_literal_len,
    vstd::string::axiom_str_literal_get_char,
;

/// One node of a parsed map file.
///
/// A number that is a non-negative integer within `u64` is held as `Num`; any
/// other number is carried through as its literal text in `NumText`, which
/// still counts as a number for the filter but is never a usable amount.
#[derive(Debug, PartialEq, Eq)]
pub enum Node {
    Null,
    Bool(bool),
    Num(u64),
    NumText(String),
    Str(String),
    Arr(Vec<Node>),
    Obj(Vec<(String, Node)>),
}

/// The value under the first entry with the given key, if any.
pub open spec fn lookup(es: Seq<(String, Node)>, key: Seq<char>) -> Option<Node>
    decreases es.len(),
{
    if es.len() == 0 {
        None
    } else if es[0].0@ == key {
        Some(es[0].1)
    } else {
        lookup(es.drop_first(), key)
    }
}

/// A field of an object node; `None` on every other kind of node.
pub open spec fn get_field(n: Node, key: Seq<char>) -> Option<Node> {
    match n {
        Node::Obj(es) => lookup(es@, key),
        _ => None,
    }
}

/// The reserved item ids: entries carrying one of these are never shuffled,
/// since moving them can make parts of the game unreachable.
pub open spec fn excluded_item(s: Seq<char>) -> bool {
    s == "23"@ || s == "24"@ || s == "25"@ || s == "26"@
}

/// Whether a number node stands at the given field (any number counts here,
/// usable as an amount or not).
pub open spec fn field_is_number(n: Node, key: Seq<char>) -> bool {
    match get_field(n, key) {
        Some(Node::Num(_)) => true,
        Some(Node::NumText(_)) => true,
        _ => false,
    }
}

/// The filter predicate: a node qualifies as a pickup entry when its `item`
/// field is a string other than the reserved ids and its `amount` field is a
/// number.
pub open spec fn qualifies(n: Node) -> bool {
    match get_field(n, "item"@) {
        Some(Node::Str(s)) => !excluded_item(s@) && field_is_number(n, "amount"@),
        _ => false,
    }
}

/// One object entry carries machine values wherever the shuffle reads or
/// writes it: an `item` slot holds the canonical decimal string of a `u32`
/// id, and an `amount` slot holds an integer within `u64`.
pub open spec fn entry_wf(e: (String, Node)) -> bool {
    &&& (e.0@ == "item"@ ==> (e.1 matches Node::Str(s) && canonical_u32(s@)))
    &&& (e.0@ == "amount"@ ==> e.1 is Num)
}

/// A qualifying node's two semantic attributes are machine values: every
/// `item` slot is the canonical decimal form of a `u32` id, and every
/// `amount` slot is an integer within `u64`.
pub open spec fn wf_fields(n: Node) -> bool {
    qualifies(n) ==> (match n {
        Node::Obj(es) => forall|i: int| 0 <= i < es@.len() ==> entry_wf(#[trigger] es@[i]),
        _ => false,
    })
}

/// The filter's guarantees: an entry carrying a reserved item id never
/// qualifies, whatever its amount; neither does one without a string `item`
/// and a numeric `amount`.
pub proof fn lemma_filter_rejections(n: Node)
    ensures
        (get_field(n, "item"@) matches Some(Node::Str(s)) && excluded_item(s@)) ==> !qualifies(n),
        !(get_field(n, "item"@) matches Some(Node::Str(s2))) ==> !qualifies(n),
        !field_is_number(n, "amount"@) ==> !qualifies(n),
{
}

/// A found entry really stands in the sequence.
pub proof fn lemma_lookup_some(es: Seq<(String, Node)>, key: Seq<char>)
    ensures
        lookup(es, key) matches Some(v) ==> exists|i: int|
            0 <= i < es.len() && #[trigger] es[i].0@ == key && es[i].1 == v,
    decreases es.len(),
{
    if es.len() > 0 && es[0].0@ != key {
        lemma_lookup_some(es.drop_first(), key);
        if lookup(es, key) is Some {
            let v = lookup(es, key)->0;
            let j = choose|i: int|
                0 <= i < es.drop_first().len() && #[trigger] es.drop_first()[i].0@ == key
                    && es.drop_first()[i].1 == v;
            assert(es[j + 1].0@ == key && es[j + 1].1 == v);
        }
    }
}

/// Every node of the subtree that the traversal can reach has well-formed
/// pickup fields wherever it qualifies.
pub open spec fn wf_node(n: Node) -> bool
    decreases n,
{
    wf_fields(n) && (match n {
        Node::Arr(v) => forall|i: int| 0 <= i < v@.len() ==> wf_node(#[trigger] v@[i]),
        Node::Obj(es) => forall|i: int| 0 <= i < es@.len() ==> wf_node(#[trigger] es@[i].1),
        _ => true,
    })
}

/// Compares two string slices by contents.
pub fn str_eq(a: &str, b: &str) -> (r: bool)
    ensures
        r == (a@ == b@),
{
    let owned_a: String = a.to_owned();
    let owned_b: String = b.to_owned();
    owned_a == owned_b
}

/// Finds the first entry with the given key, as indexing an object does.
pub fn find_field<'a>(es: &'a Vec<(String, Node)>, key: &str) -> (r: Option<&'a Node>)
    ensures
        match r {
            Some(v) => lookup(es@, key@) == Some(*v),
            None => lookup(es@, key@) is None,
        },
{
    let mut i: usize = 0;
    proof {
        assert(es@.skip(0) =~= es@);
    }
    while i < es.len()
        invariant
            0 <= i <= es@.len(),
            lookup(es@, key@) == lookup(es@.skip(i as int), key@),
            forall|j: int| 0 <= j < i ==> #[trigger] es@[j].0@ != key@,
        decreases es@.len() - i,
    {
        let entry = &es[i];
        if str_eq(entry.0.as_str(), key) {
            proof {
                assert(es@.skip(i as int)[0] == es@[i as int]);
            }
            return Some(&entry.1);
        }
        proof {
            assert(es@.skip(i as int).drop_first() =~= es@.skip(i + 1));
            assert(es@.skip(i as int)[0] == es@[i as int]);
        }
        i = i + 1;
    }
    proof {
        assert(es@.skip(i as int).len() == 0);
    }
    None
}

/// Decides whether a string is one of the reserved item ids.
pub fn is_excluded_item(s: &str) -> (r: bool)
    ensures
        r == excluded_item(s@),
{
    str_eq(s, "23") || str_eq(s, "24") || str_eq(s, "25") || str_eq(s, "26")
}

/// The filter over pickup entries: reserved ids are never visited; everything
/// else with a string `item` and a numeric `amount` is.
pub fn filter(e: &Node) -> (r: bool)
    ensures
        r == qualifies(*e),
{
    match e {
        Node::Obj(es) => {
            match find_field(es, "item") {
                Some(Node::Str(s)) => {
                    if is_excluded_item(s.as_str()) {
                        false
                    } else {
                        match find_field(es, "amount") {
                            Some(Node::Num(_)) => true,
                            Some(Node::NumText(_)) => true,
                            _ => false,
                        }
                    }
                },
                _ => false,
            }
        },
        _ => false,
    }
}

/// Checks that every reachable qualifying node of a subtree carries a
/// canonical `u32` item id and an integral amount.
pub fn check_wf(n: &Node) -> (r: bool)
    ensures
        r == wf_node(*n),
    decreases *n,
{
    let fields_ok = if filter(n) {
        match n {
            Node::Obj(es) => {
                let mut ok = true;
                let mut i: usize = 0;
                while i < es.len()
                    invariant
                        0 <= i <= es@.len(),
                        ok == forall|j: int| 0 <= j < i ==> entry_wf(#[trigger] es@[j]),
                    decreases es@.len() - i,
                {
                    let entry = &es[i];
                    let slot_ok = if str_eq(entry.0.as_str(), "item") {
                        match &entry.1 {
                            Node::Str(s) => is_canonical_u32(s.as_str()),
                            _ => false,
                        }
                    } else if str_eq(entry.0.as_str(), "amount") {
                        match &entry.1 {
                            Node::Num(_) => true,
                            _ => false,
                        }
                    } else {
                        true
                    };
                    proof {
                        reveal_strlit("item");
                        reveal_strlit("amount");
                        assert("item"@.len() != "amount"@.len());
                        assert(slot_ok == entry_wf(es@[i as int]));
                    }
                    ok = ok && slot_ok;
                    i = i + 1;
                }
                ok
            },
            _ => false,
        }
    } else {
        true
    };
    if !fields_ok {
        return false;
    }
    proof {
        assert(wf_fields(*n));
    }
    match n {
        Node::Arr(v) => {
            let mut i: usize = 0;
            while i < v.len()
                invariant
                    0 <= i <= v@.len(),
                    *n == Node::Arr(*v),
                    wf_fields(*n),
                    forall|j: int| 0 <= j < i ==> wf_node(#[trigger] v@[j]),
                decreases v@.len() - i,
            {
                proof {
                    assert(decreases_to!(*n => n->Arr_0));
                    assert(n->Arr_0 == *v);
                    assert(decreases_to!(*v => v@));
                    assert(decreases_to!(v@ => v@[i as int]));
                    assert(decreases_to!(*n => v@[i as int]));
                }
                if !check_wf(&v[i]) {
                    return false;
                }
                i = i + 1;
            }
            true
        },
        Node::Obj(es) => {
            let mut i: usize = 0;
            while i < es.len()
                invariant
                    0 <= i <= es@.len(),
                    *n == Node::Obj(*es),
                    wf_fields(*n),
                    forall|j: int| 0 <= j < i ==> wf_node(#[trigger] es@[j].1),
                decreases es@.len() - i,
            {
                proof {
                    assert(decreases_to!(*n => n->Obj_0));
                    assert(n->Obj_0 == *es);
                    assert(decreases_to!(*es => es@));
                    assert(decreases_to!(es@ => es@[i as int]));
                    assert(decreases_to!(es@[i as int] => es@[i as int].1));
                    assert(decreases_to!(*n => es@[i as int].1));
                }
                if !check_wf(&es[i].1) {
                    return false;
                }
                i = i + 1;
            }
            true
        },
        _ => true,
    }
}

} // verus!
