//! Reconciliation: turn a list command's output into the installed set and
//! split desired against installed into the items to add and to remove.

use vstd::prelude::*;

use crate::manager::{Manager, ManagerModel};
use crate::strings::split_on;
use crate::{contains_string, distinct_seq, seq_contains, views};

verus! {

/// The elements of `a` that are not members of `b`, in the order of `a`.
pub open spec fn seq_diff(a: Seq<Seq<char>>, b: Seq<Seq<char>>) -> Seq<Seq<char>>
    decreases a.len(),
{
    if a.len() == 0 {
        Seq::empty()
    } else {
        let rest = seq_diff(a.drop_last(), b);
        if seq_contains(b, a.last()) {
            rest
        } else {
            rest.push(a.last())
        }
    }
}

/// First occurrences only: `s` with every element equal to an earlier one
/// removed.
pub open spec fn dedup(s: Seq<Seq<char>>) -> Seq<Seq<char>>
    decreases s.len(),
{
    if s.len() == 0 {
        Seq::empty()
    } else if seq_contains(s.drop_last(), s.last()) {
        dedup(s.drop_last())
    } else {
        dedup(s.drop_last()).push(s.last())
    }
}

/// The non-empty pieces of `s`, in order.
pub open spec fn nonempty_pieces(s: Seq<Seq<char>>) -> Seq<Seq<char>>
    decreases s.len(),
{
    if s.len() == 0 {
        Seq::empty()
    } else {
        let rest = nonempty_pieces(s.drop_last());
        if s.last().len() > 0 {
            rest.push(s.last())
        } else {
            rest
        }
    }
}

pub proof fn lemma_seq_diff_membership(a: Seq<Seq<char>>, b: Seq<Seq<char>>)
    ensures
        forall|x: Seq<char>|
            #[trigger] seq_contains(seq_diff(a, b), x) <==> seq_contains(a, x) && !seq_contains(
                b,
                x,
            ),
    decreases a.len(),
{
    if a.len() > 0 {
        lemma_seq_diff_membership(a.drop_last(), b);
        assert forall|x: Seq<char>| #[trigger]
            seq_contains(seq_diff(a, b), x) <==> seq_contains(a, x) && !seq_contains(b, x) by {
            let rest = seq_diff(a.drop_last(), b);
            if seq_contains(a, x) && !seq_contains(b, x) {
                if x == a.last() {
                    assert(seq_diff(a, b) == rest.push(x));
                    assert(seq_diff(a, b)[seq_diff(a, b).len() - 1] == x);
                } else {
                    let i = choose|i: int| 0 <= i < a.len() && a[i] == x;
                    assert(a.drop_last()[i] == x);
                    assert(seq_contains(a.drop_last(), x));
                    assert(seq_contains(rest, x));
                    let j = choose|j: int| 0 <= j < rest.len() && rest[j] == x;
                    if !seq_contains(b, a.last()) {
                        assert(seq_diff(a, b)[j] == x);
                    }
                }
            }
            if seq_contains(seq_diff(a, b), x) {
                let j = choose|j: int|
                    0 <= j < seq_diff(a, b).len() && seq_diff(a, b)[j] == x;
                if seq_contains(b, a.last()) {
                    assert(rest[j] == x);
                } else {
                    if j < rest.len() {
                        assert(rest[j] == x);
                    } else {
                        assert(x == a.last());
                        assert(a[a.len() - 1] == x);
                    }
                }
                if seq_contains(rest, x) {
                    assert(seq_contains(a.drop_last(), x));
                    let i = choose|i: int| 0 <= i < a.drop_last().len() && a.drop_last()[i] == x;
                    assert(a[i] == x);
                }
            }
        }
    }
}

pub proof fn lemma_dedup_membership(s: Seq<Seq<char>>)
    ensures
        forall|x: Seq<char>| #[trigger] seq_contains(dedup(s), x) <==> seq_contains(s, x),
    decreases s.len(),
{
    if s.len() > 0 {
        lemma_dedup_membership(s.drop_last());
        assert forall|x: Seq<char>| #[trigger]
            seq_contains(dedup(s), x) <==> seq_contains(s, x) by {
            let rest = dedup(s.drop_last());
            if seq_contains(s, x) {
                if x == s.last() {
                    if seq_contains(s.drop_last(), x) {
                        assert(seq_contains(rest, x));
                    }
                    if !seq_contains(s.drop_last(), x) {
                        assert(dedup(s)[dedup(s).len() - 1] == x);
                    }
                } else {
                    let i = choose|i: int| 0 <= i < s.len() && s[i] == x;
                    assert(s.drop_last()[i] == x);
                    assert(seq_contains(s.drop_last(), x));
                }
                if seq_contains(rest, x) {
                    let j = choose|j: int| 0 <= j < rest.len() && rest[j] == x;
                    assert(dedup(s)[j] == x);
                }
            }
            if seq_contains(dedup(s), x) {
                let j = choose|j: int| 0 <= j < dedup(s).len() && dedup(s)[j] == x;
                if seq_contains(s.drop_last(), s.last()) {
                    assert(rest[j] == x);
                } else if j < rest.len() {
                    assert(rest[j] == x);
                } else {
                    assert(x == s.last());
                    assert(s[s.len() - 1] == x);
                }
                if seq_contains(rest, x) {
                    assert(seq_contains(s.drop_last(), x));
                    let i = choose|i: int| 0 <= i < s.drop_last().len() && s.drop_last()[i] == x;
                    assert(s[i] == x);
                }
            }
        }
    }
}

pub proof fn lemma_dedup_distinct(s: Seq<Seq<char>>)
    ensures
        distinct_seq(dedup(s)),
    decreases s.len(),
{
    if s.len() > 0 {
        lemma_dedup_distinct(s.drop_last());
        lemma_dedup_membership(s.drop_last());
        if !seq_contains(s.drop_last(), s.last()) {
            let rest = dedup(s.drop_last());
            assert forall|i: int, j: int| 0 <= i < j < dedup(s).len() implies dedup(s)[i] != dedup(
                s,
            )[j] by {
                if j < rest.len() {
                    assert(dedup(s)[i] == rest[i] && dedup(s)[j] == rest[j]);
                } else {
                    assert(dedup(s)[j] == s.last());
                    assert(dedup(s)[i] == rest[i]);
                    assert(seq_contains(rest, rest[i]));
                }
            }
        }
    }
}

pub proof fn lemma_seq_diff_distinct(a: Seq<Seq<char>>, b: Seq<Seq<char>>)
    requires
        distinct_seq(a),
    ensures
        distinct_seq(seq_diff(a, b)),
    decreases a.len(),
{
    if a.len() > 0 {
        assert(distinct_seq(a.drop_last()));
        lemma_seq_diff_distinct(a.drop_last(), b);
        lemma_seq_diff_membership(a.drop_last(), b);
        if !seq_contains(b, a.last()) {
            let rest = seq_diff(a.drop_last(), b);
            assert forall|i: int, j: int|
                0 <= i < j < seq_diff(a, b).len() implies seq_diff(a, b)[i] != seq_diff(a, b)[j] by {
                if j < rest.len() {
                    assert(seq_diff(a, b)[i] == rest[i] && seq_diff(a, b)[j] == rest[j]);
                } else {
                    assert(seq_diff(a, b)[j] == a.last());
                    assert(seq_diff(a, b)[i] == rest[i]);
                    assert(seq_contains(rest, rest[i]));
                    assert(seq_contains(a.drop_last(), rest[i]));
                    let k = choose|k: int| 0 <= k < a.drop_last().len() && a.drop_last()[k] == rest[i];
                    assert(a[k] == rest[i]);
                    assert(a[a.len() - 1] == a.last());
                }
            }
        }
    }
}

/// The installed set a list command's output denotes: its non-empty lines,
/// first occurrences only.
pub open spec fn installed_of_output(out: Seq<char>) -> Seq<Seq<char>> {
    dedup(nonempty_pieces(split_on(out, '\n')))
}

/// Parse a list command's output: split on newlines, drop empty tokens, keep
/// the first occurrence of each item.
pub fn parse_list_output(out: &str) -> (r: Vec<String>)
    ensures
        views(r@) == installed_of_output(out@),
        distinct_seq(views(r@)),
{
    let pieces = crate::strings::split_string(out, '\n');
    let ghost pv = views(pieces@);
    let mut res: Vec<String> = Vec::new();
    let mut i: usize = 0;
    proof {
        assert(pv.take(0) =~= Seq::<Seq<char>>::empty());
    }
    while i < pieces.len()
        invariant
            pv == views(pieces@),
            pv.len() == pieces@.len(),
            i <= pieces@.len(),
            views(res@) == dedup(nonempty_pieces(pv.take(i as int))),
        decreases pieces@.len() - i,
    {
        let ghost res0 = views(res@);
        let ghost prev = nonempty_pieces(pv.take(i as int));
        proof {
            assert(pv[i as int] == pieces@[i as int]@);
            assert(pv.take(i + 1).drop_last() =~= pv.take(i as int));
            assert(pv.take(i + 1).last() == pv[i as int]);
            lemma_dedup_membership(prev);
        }
        if !pieces[i].as_str().is_empty() {
            proof {
                assert(nonempty_pieces(pv.take(i + 1)) == prev.push(pv[i as int]));
                assert(prev.push(pv[i as int]).drop_last() =~= prev);
                assert(prev.push(pv[i as int]).last() == pv[i as int]);
                assert(seq_contains(prev, pv[i as int]) == seq_contains(res0, pv[i as int]));
            }
            if !contains_string(&res, &pieces[i]) {
                let item = pieces[i].clone();
                res.push(item);
                proof {
                    assert(views(res@) =~= res0.push(pv[i as int]));
                }
            }
        } else {
            proof {
                assert(nonempty_pieces(pv.take(i + 1)) == prev);
            }
        }
        i += 1;
    }
    proof {
        assert(pv.take(pieces@.len() as int) =~= pv);
        lemma_dedup_distinct(nonempty_pieces(pv));
    }
    res
}

/// The elements of `a` not contained in `b`, in the order of `a`.
pub fn vec_diff(a: &Vec<String>, b: &Vec<String>) -> (r: Vec<String>)
    ensures
        views(r@) == seq_diff(views(a@), views(b@)),
{
    let mut res: Vec<String> = Vec::new();
    let mut i: usize = 0;
    proof {
        assert(views(a@).take(0) =~= Seq::<Seq<char>>::empty());
    }
    while i < a.len()
        invariant
            i <= a@.len(),
            views(res@) == seq_diff(views(a@).take(i as int), views(b@)),
        decreases a@.len() - i,
    {
        let ghost res0 = views(res@);
        proof {
            assert(views(a@).take(i + 1).drop_last() =~= views(a@).take(i as int));
            assert(views(a@).take(i + 1).last() == views(a@)[i as int]);
        }
        if !contains_string(b, &a[i]) {
            let item = a[i].clone();
            res.push(item);
            proof {
                assert(views(res@) =~= res0.push(views(a@)[i as int]));
            }
        }
        i += 1;
    }
    proof {
        assert(views(a@).take(a@.len() as int) =~= views(a@));
    }
    res
}

/// Split the manager's desired set against the installed set read from its
/// list command's output: what is desired but not installed is to add, what
/// is installed but not desired is to remove. Desired items are untouched.
pub fn compute_add_remove(manager: &mut Manager, list_output: &str)
    requires
        old(manager)@.wf(),
    ensures
        final(manager)@.wf(),
        final(manager)@ == (ManagerModel {
            items_to_add: seq_diff(old(manager)@.items, installed_of_output(list_output@)),
            items_to_remove: seq_diff(installed_of_output(list_output@), old(manager)@.items),
            ..old(manager)@
        }),
        distinct_seq(final(manager)@.items_to_add),
        distinct_seq(final(manager)@.items_to_remove),
{
    let installed = parse_list_output(list_output);
    let to_add = vec_diff(&manager.items, &installed);
    let to_remove = vec_diff(&installed, &manager.items);
    manager.items_to_add = to_add;
    manager.items_to_remove = to_remove;
    proof {
        lemma_seq_diff_distinct(old(manager)@.items, installed_of_output(list_output@));
        lemma_seq_diff_distinct(installed_of_output(list_output@), old(manager)@.items);
    }
}

/// Law: reconciliation splits desired and installed by set difference — the
/// items to add are exactly `desired − installed`, the items to remove are
/// exactly `installed − desired`, and the two are disjoint.
pub proof fn lemma_reconcile_partition(desired: Seq<Seq<char>>, installed: Seq<Seq<char>>)
    ensures
        seq_diff(desired, installed).to_set() == desired.to_set().difference(installed.to_set()),
        seq_diff(installed, desired).to_set() == installed.to_set().difference(desired.to_set()),
        seq_diff(desired, installed).to_set().intersect(seq_diff(installed, desired).to_set())
            == Set::<Seq<char>>::empty(),
{
    lemma_seq_diff_membership(desired, installed);
    lemma_seq_diff_membership(installed, desired);
    assert forall|x: Seq<char>| #[trigger] seq_diff(desired, installed).to_set().contains(x)
        implies desired.to_set().difference(installed.to_set()).contains(x) by {
        assert(seq_contains(seq_diff(desired, installed), x));
    }
    assert(seq_diff(desired, installed).to_set() =~= desired.to_set().difference(
        installed.to_set(),
    )) by {
        assert forall|x: Seq<char>| true implies #[trigger] seq_diff(
            desired,
            installed,
        ).to_set().contains(x) == desired.to_set().difference(installed.to_set()).contains(x) by {
            assert(seq_diff(desired, installed).to_set().contains(x) == seq_contains(
                seq_diff(desired, installed),
                x,
            ));
            assert(desired.to_set().contains(x) == seq_contains(desired, x));
            assert(installed.to_set().contains(x) == seq_contains(installed, x));
        }
    }
    assert(seq_diff(installed, desired).to_set() =~= installed.to_set().difference(
        desired.to_set(),
    )) by {
        assert forall|x: Seq<char>| true implies #[trigger] seq_diff(
            installed,
            desired,
        ).to_set().contains(x) == installed.to_set().difference(desired.to_set()).contains(x) by {
            assert(seq_diff(installed, desired).to_set().contains(x) == seq_contains(
                seq_diff(installed, desired),
                x,
            ));
            assert(installed.to_set().contains(x) == seq_contains(installed, x));
            assert(desired.to_set().contains(x) == seq_contains(desired, x));
        }
    }
    assert(seq_diff(desired, installed).to_set().intersect(seq_diff(installed, desired).to_set())
        =~= Set::<Seq<char>>::empty()) by {
        assert forall|x: Seq<char>| !(#[trigger] seq_diff(desired, installed).to_set().intersect(
            seq_diff(installed, desired).to_set(),
        ).contains(x)) by {
            assert(seq_diff(desired, installed).to_set().contains(x) == seq_contains(
                seq_diff(desired, installed),
                x,
            ));
            assert(seq_diff(installed, desired).to_set().contains(x) == seq_contains(
                seq_diff(installed, desired),
                x,
            ));
        }
    }
}

} // verus!
