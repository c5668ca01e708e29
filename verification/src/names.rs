use vstd::prelude::*;

use crate::table::{lemma_lex_order_equal, lemma_lex_order_flip, lemma_lex_order_transitive, lex_compare, lex_order, Comparison};
use crate::text::{chars_of, join, join_strings, strings_view};

verus! {

/// Names listed in increasing code-point order, each once.
pub open spec fn strictly_sorted(v: Seq<Seq<char>>) -> bool {
    forall|i: int, j: int| 0 <= i < j < v.len() ==> #[trigger] lex_order(v[i], v[j]) == Comparison::Less
}

/// The sorted listing of a finite set of names.
pub open spec fn sorted_listing(s: Set<Seq<char>>) -> Seq<Seq<char>> {
    choose|v: Seq<Seq<char>>| strictly_sorted(v) && v.to_set() == s
}

/// A listing of names separated by commas, or `unknown` when there are none.
pub open spec fn names_text(v: Seq<Seq<char>>) -> Seq<char> {
    if v.len() == 0 {
        "unknown"@
    } else {
        join(v, ", "@)
    }
}

proof fn lemma_sorted_tail(v: Seq<Seq<char>>)
    requires
        strictly_sorted(v),
        v.len() > 0,
    ensures
        strictly_sorted(v.drop_first()),
        forall|k: int| 0 <= k < v.drop_first().len() ==> lex_order(v[0], #[trigger] v.drop_first()[k]) == Comparison::Less,
{
    assert forall|i: int, j: int| 0 <= i < j < v.drop_first().len() implies #[trigger] lex_order(
        v.drop_first()[i],
        v.drop_first()[j],
    ) == Comparison::Less by {
        assert(lex_order(v[i + 1], v[j + 1]) == Comparison::Less);
    }
    assert forall|k: int| 0 <= k < v.drop_first().len() implies lex_order(v[0], #[trigger] v.drop_first()[k])
        == Comparison::Less by {
        assert(lex_order(v[0], v[k + 1]) == Comparison::Less);
    }
}

/// Two sorted listings of the same names are the same listing.
pub proof fn lemma_sorted_unique(a: Seq<Seq<char>>, b: Seq<Seq<char>>)
    requires
        strictly_sorted(a),
        strictly_sorted(b),
        a.to_set() == b.to_set(),
    ensures
        a == b,
    decreases a.len() + b.len(),
{
    if a.len() == 0 {
        if b.len() > 0 {
            assert(b.to_set().contains(b[0]));
        }
        assert(a =~= b);
    } else if b.len() == 0 {
        assert(a.to_set().contains(a[0]));
    } else {
        // the first entries are the least names of the set
        assert(a.to_set().contains(a[0]));
        assert(b.to_set().contains(b[0]));
        let ia = choose|k: int| 0 <= k < b.len() && b[k] == a[0];
        let ib = choose|k: int| 0 <= k < a.len() && a[k] == b[0];
        if ia > 0 {
            assert(lex_order(b[0], b[ia]) == Comparison::Less);
            if ib > 0 {
                assert(lex_order(a[0], a[ib]) == Comparison::Less);
                lemma_lex_order_flip(b[0], a[0]);
            } else {
                lemma_lex_order_equal(b[0], a[0]);
            }
        }
        if ib > 0 && ia == 0 {
            assert(lex_order(a[0], a[ib]) == Comparison::Less);
            lemma_lex_order_equal(a[0], b[0]);
        }
        assert(a[0] == b[0]);
        lemma_sorted_tail(a);
        lemma_sorted_tail(b);
        let a1 = a.drop_first();
        let b1 = b.drop_first();
        assert forall|x: Seq<char>| a1.to_set().contains(x) implies b1.to_set().contains(x) by {
            let k = choose|k: int| 0 <= k < a1.len() && a1[k] == x;
            assert(lex_order(a[0], a1[k]) == Comparison::Less);
            lemma_lex_order_equal(a[0], x);
            assert(a.to_set().contains(x)) by {
                assert(a[k + 1] == x);
            }
            let m = choose|m: int| 0 <= m < b.len() && b[m] == x;
            assert(m != 0);
            assert(b1[m - 1] == x);
        }
        assert forall|x: Seq<char>| b1.to_set().contains(x) implies a1.to_set().contains(x) by {
            let k = choose|k: int| 0 <= k < b1.len() && b1[k] == x;
            assert(lex_order(b[0], b1[k]) == Comparison::Less);
            lemma_lex_order_equal(b[0], x);
            assert(b.to_set().contains(x)) by {
                assert(b[k + 1] == x);
            }
            let m = choose|m: int| 0 <= m < a.len() && a[m] == x;
            assert(m != 0);
            assert(a1[m - 1] == x);
        }
        assert(a1.to_set() =~= b1.to_set());
        lemma_sorted_unique(a1, b1);
        assert(a =~= seq![a[0]] + a1);
        assert(b =~= seq![b[0]] + b1);
    }
}

/// A sorted listing of `s` is its sorted listing.
pub proof fn lemma_is_sorted_listing(v: Seq<Seq<char>>, s: Set<Seq<char>>)
    requires
        strictly_sorted(v),
        v.to_set() == s,
    ensures
        sorted_listing(s) == v,
{
    let w = sorted_listing(s);
    assert(strictly_sorted(w) && w.to_set() == s);
    lemma_sorted_unique(v, w);
}

/// Adds `x` to a sorted listing of names, keeping it sorted.
pub fn insert_name(names: &mut Vec<String>, x: &String)
    requires
        strictly_sorted(strings_view(old(names)@)),
    ensures
        strictly_sorted(strings_view(final(names)@)),
        strings_view(final(names)@).to_set() == strings_view(old(names)@).to_set().insert(x@),
{
    let ghost old_v = strings_view(names@);
    let xc = chars_of(x.as_str());
    let mut i: usize = 0;
    while i < names.len()
        invariant
            i <= names.len(),
            names@ == old(names)@,
            old_v == strings_view(names@),
            xc@ == x@,
            forall|k: int| 0 <= k < i ==> lex_order(#[trigger] old_v[k], x@) == Comparison::Less,
        ensures
            i <= names.len(),
            forall|k: int| 0 <= k < i ==> lex_order(#[trigger] old_v[k], x@) == Comparison::Less,
            i < names.len() ==> lex_order(old_v[i as int], x@) != Comparison::Less,
        decreases names.len() - i,
    {
        let c = lex_compare(&chars_of(names[i].as_str()), &xc);
        if c != Comparison::Less {
            break;
        }
        i = i + 1;
    }
    if i < names.len() {
        let c = lex_compare(&chars_of(names[i].as_str()), &xc);
        if c == Comparison::Equal {
            proof {
                lemma_lex_order_equal(old_v[i as int], x@);
                assert(old_v.to_set().insert(x@) =~= old_v.to_set());
            }
            return;
        }
    }
    names.insert(i, x.clone());
    proof {
        let new_v = strings_view(names@);
        assert(new_v =~= old_v.insert(i as int, x@));
        if i < old_v.len() {
            lemma_lex_order_flip(old_v[i as int], x@);
        }
        assert forall|a: int, b: int| 0 <= a < b < new_v.len() implies #[trigger] lex_order(new_v[a], new_v[b])
            == Comparison::Less by {
            if b < i {
            } else if b == i {
            } else if a < i {
                // old_v[a] < x < old_v[i] <= old_v[b - 1]
                if b - 1 > i {
                    assert(lex_order(old_v[i as int], old_v[b - 1]) == Comparison::Less);
                    lemma_lex_order_transitive(x@, old_v[i as int], old_v[b - 1]);
                }
                lemma_lex_order_transitive(old_v[a], x@, old_v[b - 1]);
            } else if a == i {
                if b - 1 > i {
                    assert(lex_order(old_v[i as int], old_v[b - 1]) == Comparison::Less);
                    lemma_lex_order_transitive(x@, old_v[i as int], old_v[b - 1]);
                }
            } else {
                assert(lex_order(old_v[a - 1], old_v[b - 1]) == Comparison::Less);
            }
        }
        assert(new_v.to_set() =~= old_v.to_set().insert(x@)) by {
            assert forall|y: Seq<char>| new_v.to_set().contains(y) implies old_v.to_set().insert(x@).contains(y) by {
                let k = choose|k: int| 0 <= k < new_v.len() && new_v[k] == y;
                if k < i {
                    assert(old_v[k] == y);
                } else if k > i {
                    assert(old_v[k - 1] == y);
                }
            }
            assert forall|y: Seq<char>| old_v.to_set().insert(x@).contains(y) implies new_v.to_set().contains(y) by {
                if y == x@ {
                    assert(new_v[i as int] == y);
                } else {
                    let k = choose|k: int| 0 <= k < old_v.len() && old_v[k] == y;
                    if k < i {
                        assert(new_v[k] == y);
                    } else {
                        assert(new_v[k + 1] == y);
                    }
                }
            }
        }
    }
}

/// The names separated by commas, or `unknown` when there are none.
pub fn join_set(values: &Vec<String>) -> (s: String)
    ensures
        s@ == names_text(strings_view(values@)),
{
    if values.len() == 0 {
        String::from_str("unknown")
    } else {
        join_strings(values, ", ")
    }
}

} // verus!
