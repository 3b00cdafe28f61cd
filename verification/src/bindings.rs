//! The variable assignments of a session, kept in the order of their names.

use crate::order::{
    is_name_before, lemma_name_irreflexive, lemma_name_total, lemma_name_transitive, name_before,
};
use m_calc::Token;
use vstd::prelude::*;

verus! {

/// A variable and the token list that it stands for.
#[derive(Clone, Debug)]
pub struct Binding {
    pub name: String,
    pub value: Vec<Token>,
}

/// No two bindings have the same name.
pub open spec fn distinct_names(bindings: Seq<Binding>) -> bool {
    forall|i: int, j: int| 0 <= i < j < bindings.len() ==> bindings[i].name@ != bindings[j].name@
}

/// The bindings stand in the strict order of their names.
pub open spec fn sorted_by_name(bindings: Seq<Binding>) -> bool {
    forall|i: int, j: int|
        0 <= i < j < bindings.len() ==> name_before(bindings[i].name@, bindings[j].name@)
}

/// The name is bound.
pub open spec fn binds(bindings: Seq<Binding>, name: Seq<char>) -> bool {
    exists|i: int| 0 <= i < bindings.len() && bindings[i].name@ == name
}

/// The name is bound to the value.
pub open spec fn binds_to(bindings: Seq<Binding>, name: Seq<char>, value: Seq<Token>) -> bool {
    exists|i: int|
        0 <= i < bindings.len() && bindings[i].name@ == name && bindings[i].value@ == value
}

/// Bindings in the strict order of their names have distinct names.
pub proof fn lemma_sorted_distinct(bindings: Seq<Binding>)
    requires
        sorted_by_name(bindings),
    ensures
        distinct_names(bindings),
{
    assert forall|i: int, j: int| 0 <= i < j < bindings.len() implies bindings[i].name@
        != bindings[j].name@ by {
        lemma_name_irreflexive(bindings[i].name@);
    }
}

/// There is one way only to put bindings in the strict order of their names:
/// two such lists of the same bindings are the same list.
pub proof fn lemma_sorted_unique(a: Seq<Binding>, b: Seq<Binding>)
    requires
        sorted_by_name(a),
        sorted_by_name(b),
        forall|x: Binding| a.contains(x) <==> b.contains(x),
    ensures
        a == b,
    decreases a.len(),
{
    if a.len() == 0 {
        if b.len() > 0 {
            assert(b.contains(b[0]));
        }
        assert(a =~= b);
    } else {
        assert(a.contains(a[0]));
        let j = choose|j: int| 0 <= j < b.len() && b[j] == a[0];
        assert(b.contains(b[0]));
        let i = choose|i: int| 0 <= i < a.len() && a[i] == b[0];
        if j > 0 {
            lemma_name_irreflexive(a[0].name@);
            if i > 0 {
                lemma_name_transitive(a[0].name@, a[i].name@, a[0].name@);
            }
        }
        assert(a[0] == b[0]);
        let ra = a.skip(1);
        let rb = b.skip(1);
        assert forall|x: Binding| ra.contains(x) <==> rb.contains(x) by {
            if ra.contains(x) {
                let k = choose|k: int| 0 <= k < ra.len() && ra[k] == x;
                assert(a[k + 1] == x);
                assert(a.contains(x));
                let m = choose|m: int| 0 <= m < b.len() && b[m] == x;
                lemma_name_irreflexive(a[0].name@);
                assert(m > 0);
                assert(rb[m - 1] == x);
            }
            if rb.contains(x) {
                let k = choose|k: int| 0 <= k < rb.len() && rb[k] == x;
                assert(b[k + 1] == x);
                assert(b.contains(x));
                let m = choose|m: int| 0 <= m < a.len() && a[m] == x;
                lemma_name_irreflexive(b[0].name@);
                assert(m > 0);
                assert(ra[m - 1] == x);
            }
        }
        assert(sorted_by_name(ra)) by {
            assert forall|p: int, q: int| 0 <= p < q < ra.len() implies name_before(
                ra[p].name@,
                ra[q].name@,
            ) by {
                assert(ra[p] == a[p + 1] && ra[q] == a[q + 1]);
            }
        }
        assert(sorted_by_name(rb)) by {
            assert forall|p: int, q: int| 0 <= p < q < rb.len() implies name_before(
                rb[p].name@,
                rb[q].name@,
            ) by {
                assert(rb[p] == b[p + 1] && rb[q] == b[q + 1]);
            }
        }
        lemma_sorted_unique(ra, rb);
        assert(a =~= seq![a[0]] + ra);
        assert(b =~= seq![b[0]] + rb);
    }
}

/// Two lists of the same bindings bind the same names to the same values.
pub proof fn lemma_same_bindings(a: Seq<Binding>, b: Seq<Binding>)
    requires
        forall|x: Binding| a.contains(x) <==> b.contains(x),
    ensures
        forall|name: Seq<char>| binds(a, name) <==> binds(b, name),
        forall|name: Seq<char>, value: Seq<Token>|
            binds_to(a, name, value) <==> binds_to(b, name, value),
{
    assert forall|name: Seq<char>| binds(a, name) <==> binds(b, name) by {
        if binds(a, name) {
            let i = choose|i: int| 0 <= i < a.len() && a[i].name@ == name;
            assert(a.contains(a[i]));
            let j = choose|j: int| 0 <= j < b.len() && b[j] == a[i];
        }
        if binds(b, name) {
            let i = choose|i: int| 0 <= i < b.len() && b[i].name@ == name;
            assert(b.contains(b[i]));
            let j = choose|j: int| 0 <= j < a.len() && a[j] == b[i];
        }
    }
    assert forall|name: Seq<char>, value: Seq<Token>|
        binds_to(a, name, value) <==> binds_to(b, name, value) by {
        if binds_to(a, name, value) {
            let i = choose|i: int|
                0 <= i < a.len() && a[i].name@ == name && a[i].value@ == value;
            assert(a.contains(a[i]));
            let j = choose|j: int| 0 <= j < b.len() && b[j] == a[i];
        }
        if binds_to(b, name, value) {
            let i = choose|i: int|
                0 <= i < b.len() && b[i].name@ == name && b[i].value@ == value;
            assert(b.contains(b[i]));
            let j = choose|j: int| 0 <= j < a.len() && a[j] == b[i];
        }
    }
}

/// Puts bindings of distinct names in the order of their names.
pub fn sort_bindings(bindings: Vec<Binding>) -> (sorted: Vec<Binding>)
    requires
        distinct_names(bindings@),
    ensures
        sorted_by_name(sorted@),
        sorted@.len() == bindings@.len(),
        forall|b: Binding| sorted@.contains(b) <==> bindings@.contains(b),
{
    let ghost all = bindings@;
    let mut rest = bindings;
    let mut sorted: Vec<Binding> = Vec::new();
    while rest.len() > 0
        invariant
            distinct_names(rest@),
            sorted_by_name(sorted@),
            rest@.len() + sorted@.len() == all.len(),
            forall|i: int, j: int|
                0 <= i < rest@.len() && 0 <= j < sorted@.len() ==> rest@[i].name@
                    != sorted@[j].name@,
            forall|b: Binding| all.contains(b) <==> rest@.contains(b) || sorted@.contains(b),
        decreases rest@.len(),
    {
        let ghost rest_before = rest@;
        let ghost sorted_before = sorted@;
        let binding = rest.pop().unwrap();
        assert(binding == rest_before.last());
        let mut at: usize = 0;
        while at < sorted.len() && is_name_before(&sorted[at].name, &binding.name)
            invariant
                at <= sorted@.len(),
                forall|k: int| 0 <= k < at ==> name_before(sorted@[k].name@, binding.name@),
            decreases sorted@.len() - at,
        {
            at = at + 1;
        }
        proof {
            assert forall|k: int| at <= k < sorted@.len() implies name_before(
                binding.name@,
                sorted@[k].name@,
            ) by {
                assert(rest_before[rest_before.len() - 1].name@ != sorted@[at as int].name@);
                lemma_name_total(binding.name@, sorted@[at as int].name@);
                if k > at {
                    lemma_name_transitive(binding.name@, sorted@[at as int].name@, sorted@[k].name@);
                }
            }
        }
        sorted.insert(at, binding);
        proof {
            assert forall|b: Binding| all.contains(b) <==> rest@.contains(b) || sorted@.contains(
                b,
            ) by {
                if rest_before.contains(b) {
                    let i = choose|i: int| 0 <= i < rest_before.len() && rest_before[i] == b;
                    if i < rest@.len() {
                        assert(rest@[i] == b);
                    } else {
                        assert(sorted@[at as int] == b);
                    }
                }
                if sorted_before.contains(b) {
                    let j = choose|j: int| 0 <= j < sorted_before.len() && sorted_before[j] == b;
                    if j < at {
                        assert(sorted@[j] == b);
                    } else {
                        assert(sorted@[j + 1] == b);
                    }
                }
                if rest@.contains(b) {
                    let i = choose|i: int| 0 <= i < rest@.len() && rest@[i] == b;
                    assert(rest_before[i] == b);
                }
                if sorted@.contains(b) {
                    let j = choose|j: int| 0 <= j < sorted@.len() && sorted@[j] == b;
                    if j < at {
                        assert(sorted_before[j] == b);
                    } else if j == at {
                        assert(rest_before[rest_before.len() - 1] == b);
                    } else {
                        assert(sorted_before[j - 1] == b);
                    }
                }
            }
            assert forall|i: int, j: int|
                0 <= i < rest@.len() && 0 <= j < sorted@.len() implies rest@[i].name@
                != sorted@[j].name@ by {
                assert(rest@[i] == rest_before[i]);
                if j < at {
                    assert(sorted@[j] == sorted_before[j]);
                } else if j > at {
                    assert(sorted@[j] == sorted_before[j - 1]);
                }
            }
            assert forall|i: int, j: int| 0 <= i < j < sorted@.len() implies name_before(
                sorted@[i].name@,
                sorted@[j].name@,
            ) by {
                let a = if i < at { i } else { i - 1 };
                let b = if j < at { j } else { j - 1 };
                if i != at && j != at {
                    assert(sorted@[i] == sorted_before[a]);
                    assert(sorted@[j] == sorted_before[b]);
                } else if i == at {
                    assert(sorted@[j] == sorted_before[b]);
                } else {
                    assert(sorted@[i] == sorted_before[a]);
                }
            }
        }
    }
    assert forall|b: Binding| sorted@.contains(b) <==> all.contains(b) by {
        if rest@.contains(b) {
            let i = choose|i: int| 0 <= i < rest@.len() && rest@[i] == b;
        }
    }
    sorted
}

/// Finds the first place where a name is bound.
pub fn position_of(bindings: &Vec<Binding>, name: &String) -> (place: Option<usize>)
    ensures
        match place {
            Some(at) => {
                &&& at < bindings@.len()
                &&& bindings@[at as int].name@ == name@
                &&& forall|k: int| 0 <= k < at ==> bindings@[k].name@ != name@
            },
            None => !binds(bindings@, name@),
        },
{
    let mut at: usize = 0;
    while at < bindings.len()
        invariant
            at <= bindings@.len(),
            forall|k: int| 0 <= k < at ==> bindings@[k].name@ != name@,
        decreases bindings@.len() - at,
    {
        if bindings[at].name == *name {
            return Some(at);
        }
        at = at + 1;
    }
    None
}

} // verus!
