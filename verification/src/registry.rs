//! The manager registry's ordering rules: the ordering file, each manager's
//! rank in it, the stable ordering of discovered managers, and the check that
//! every explicitly requested manager was found.

use vstd::prelude::*;

use crate::error::{ConfigError, ConfigErrorModel};
use crate::manager::Manager;
use crate::strings::{split_on, split_string, str_eq};
use crate::views;

verus! {

/// A line with a trailing carriage return dropped.
pub open spec fn line_of(p: Seq<char>) -> Seq<char> {
    if p.len() > 0 && p.last() == '\r' {
        p.drop_last()
    } else {
        p
    }
}

/// The lines of a text: pieces between newlines, a final empty piece (from a
/// trailing newline) dropped, carriage returns stripped.
pub open spec fn lines_of(s: Seq<char>) -> Seq<Seq<char>> {
    let ps = split_on(s, '\n');
    let ps2 = if ps.len() > 0 && ps.last() == Seq::<char>::empty() {
        ps.drop_last()
    } else {
        ps
    };
    ps2.map_values(|p: Seq<char>| line_of(p))
}

/// Drop a trailing carriage return.
fn strip_cr(s: &String) -> (r: String)
    ensures
        r@ == line_of(s@),
{
    let n = s.as_str().unicode_len();
    if n > 0 && s.as_str().get_char(n - 1) == '\r' {
        let out = s.as_str().substring_char(0, n - 1);
        proof {
            assert(out@ =~= s@.drop_last());
        }
        out.to_owned()
    } else {
        s.clone()
    }
}

/// Parse a manager ordering file: one manager name per line.
pub fn parse_order_lines(text: &str) -> (r: Vec<String>)
    ensures
        views(r@) == lines_of(text@),
{
    let mut pieces = split_string(text, '\n');
    let ghost ps = views(pieces@);
    if pieces.len() > 0 && pieces[pieces.len() - 1].as_str().is_empty() {
        let last = pieces.len() - 1;
        pieces.remove(last);
        proof {
            assert(views(pieces@) =~= ps.drop_last());
            assert(ps.last() =~= Seq::<char>::empty());
        }
    }
    let ghost ps2 = views(pieces@);
    let mut out: Vec<String> = Vec::new();
    let mut i: usize = 0;
    proof {
        assert(views(out@) =~= ps2.take(0).map_values(|p: Seq<char>| line_of(p)));
    }
    while i < pieces.len()
        invariant
            ps2 == views(pieces@),
            ps2.len() == pieces@.len(),
            i <= pieces@.len(),
            views(out@) == ps2.take(i as int).map_values(|p: Seq<char>| line_of(p)),
        decreases pieces@.len() - i,
    {
        let ghost out0 = views(out@);
        let line = strip_cr(&pieces[i]);
        out.push(line);
        proof {
            assert(ps2[i as int] == pieces@[i as int]@);
            assert(views(out@) =~= out0.push(line_of(ps2[i as int])));
            assert(ps2.take(i + 1).map_values(|p: Seq<char>| line_of(p)) =~~= ps2.take(
                i as int,
            ).map_values(|p: Seq<char>| line_of(p)).push(line_of(ps2[i as int])));
        }
        i += 1;
    }
    proof {
        assert(ps2.take(pieces@.len() as int) =~= ps2);
    }
    out
}

/// The rank of a name in the ordering: the position of its first occurrence,
/// or the ordering's length when it does not occur (unordered names sort
/// after all ordered ones).
pub open spec fn rank(order: Seq<Seq<char>>, name: Seq<char>) -> int
    decreases order.len(),
{
    if order.len() == 0 {
        0
    } else if order[0] == name {
        0
    } else {
        1 + rank(order.skip(1), name)
    }
}

pub proof fn lemma_rank(order: Seq<Seq<char>>, name: Seq<char>)
    ensures
        0 <= rank(order, name) <= order.len(),
        rank(order, name) < order.len() ==> order[rank(order, name)] == name,
        forall|j: int| 0 <= j < rank(order, name) ==> order[j] != name,
    decreases order.len(),
{
    if order.len() > 0 && order[0] != name {
        lemma_rank(order.skip(1), name);
        assert forall|j: int| 0 <= j < rank(order, name) implies order[j] != name by {
            if j > 0 {
                assert(order.skip(1)[j - 1] == order[j]);
            }
        }
    }
}

/// The position of the first occurrence of `name` in `order`, or the length
/// of `order` when absent.
pub fn rank_of(order: &Vec<String>, name: &String) -> (r: usize)
    ensures
        r as int == rank(views(order@), name@),
{
    let ghost ov = views(order@);
    proof {
        lemma_rank(ov, name@);
    }
    let mut i: usize = 0;
    while i < order.len()
        invariant
            ov == views(order@),
            ov.len() == order@.len(),
            i <= order@.len(),
            forall|k: int| 0 <= k < i ==> ov[k] != name@,
        decreases order@.len() - i,
    {
        proof {
            assert(ov[i as int] == order@[i as int]@);
        }
        if str_eq(order[i].as_str(), name.as_str()) {
            proof {
                lemma_rank(ov, name@);
                let rk = rank(ov, name@);
                if rk < i {
                    assert(ov[rk] == name@);
                }
                if i < rk {
                    assert(ov[i as int] != name@);
                }
            }
            return i;
        }
        i += 1;
    }
    proof {
        lemma_rank(ov, name@);
        let rk = rank(ov, name@);
        if rk < ov.len() {
            assert(ov[rk] == name@);
        }
    }
    order.len()
}

/// The managers of `ms` whose name has the given rank, in discovery order.
pub open spec fn with_rank(ms: Seq<Manager>, order: Seq<Seq<char>>, r: int) -> Seq<Manager>
    decreases ms.len(),
{
    if ms.len() == 0 {
        Seq::empty()
    } else {
        let rest = with_rank(ms.drop_last(), order, r);
        if rank(order, ms.last().name@) == r {
            rest.push(ms.last())
        } else {
            rest
        }
    }
}

/// The managers of `ms` whose name does not have the given rank, in order.
pub open spec fn without_rank(ms: Seq<Manager>, order: Seq<Seq<char>>, r: int) -> Seq<Manager>
    decreases ms.len(),
{
    if ms.len() == 0 {
        Seq::empty()
    } else {
        let rest = without_rank(ms.drop_last(), order, r);
        if rank(order, ms.last().name@) != r {
            rest.push(ms.last())
        } else {
            rest
        }
    }
}

/// The managers of rank `r`, then of rank `r + 1`, and so on through the
/// unordered rank; within one rank, discovery order is kept.
pub open spec fn by_rank_from(ms: Seq<Manager>, order: Seq<Seq<char>>, r: int) -> Seq<Manager>
    decreases order.len() + 1 - r,
{
    if r < 0 || r > order.len() {
        Seq::empty()
    } else {
        with_rank(ms, order, r) + by_rank_from(ms, order, r + 1)
    }
}

/// The stable ordering of managers: sorted by rank in the ordering list, the
/// unordered after all ordered ones, ties kept in discovery order.
pub open spec fn ordered_managers(ms: Seq<Manager>, order: Seq<Seq<char>>) -> Seq<Manager> {
    by_rank_from(ms, order, 0)
}

proof fn lemma_with_rank_members(ms: Seq<Manager>, order: Seq<Seq<char>>, r: int)
    ensures
        forall|i: int|
            0 <= i < with_rank(ms, order, r).len() ==> rank(
                order,
                (#[trigger] with_rank(ms, order, r)[i]).name@,
            ) == r,
    decreases ms.len(),
{
    if ms.len() > 0 {
        lemma_with_rank_members(ms.drop_last(), order, r);
        let rest = with_rank(ms.drop_last(), order, r);
        if rank(order, ms.last().name@) == r {
            assert forall|i: int| 0 <= i < with_rank(ms, order, r).len() implies rank(
                order,
                (#[trigger] with_rank(ms, order, r)[i]).name@,
            ) == r by {
                if i < rest.len() {
                    assert(with_rank(ms, order, r)[i] == rest[i]);
                } else {
                    assert(with_rank(ms, order, r)[i] == ms.last());
                }
            }
        }
    }
}

/// Law: manager ordering sorts by rank — in the ordered result, the rank of a
/// manager's name in the ordering list never decreases from one position to
/// the next, so every ordered manager precedes every unordered one (whose
/// rank is the list's length); ties keep discovery order by construction,
/// each rank's managers being taken in discovery order.
pub proof fn lemma_ordering_sorted(ms: Seq<Manager>, order: Seq<Seq<char>>)
    ensures
        forall|i: int, j: int|
            0 <= i < j < ordered_managers(ms, order).len() ==> rank(
                order,
                (#[trigger] ordered_managers(ms, order)[i]).name@,
            ) <= rank(order, (#[trigger] ordered_managers(ms, order)[j]).name@),
{
    lemma_by_rank_sorted(ms, order, 0);
}

proof fn lemma_by_rank_sorted(ms: Seq<Manager>, order: Seq<Seq<char>>, r: int)
    ensures
        forall|i: int|
            0 <= i < by_rank_from(ms, order, r).len() ==> r <= rank(
                order,
                (#[trigger] by_rank_from(ms, order, r)[i]).name@,
            ),
        forall|i: int, j: int|
            0 <= i < j < by_rank_from(ms, order, r).len() ==> rank(
                order,
                (#[trigger] by_rank_from(ms, order, r)[i]).name@,
            ) <= rank(order, (#[trigger] by_rank_from(ms, order, r)[j]).name@),
    decreases order.len() + 1 - r,
{
    if 0 <= r && r <= order.len() {
        lemma_with_rank_members(ms, order, r);
        lemma_by_rank_sorted(ms, order, r + 1);
        let head = with_rank(ms, order, r);
        let tail = by_rank_from(ms, order, r + 1);
        let whole = by_rank_from(ms, order, r);
        assert forall|i: int| 0 <= i < whole.len() implies r <= rank(
            order,
            (#[trigger] whole[i]).name@,
        ) by {
            if i < head.len() {
                assert(whole[i] == head[i]);
            } else {
                assert(whole[i] == tail[i - head.len()]);
            }
        }
        assert forall|i: int, j: int| 0 <= i < j < whole.len() implies rank(
            order,
            (#[trigger] whole[i]).name@,
        ) <= rank(order, (#[trigger] whole[j]).name@) by {
            if i < head.len() {
                assert(whole[i] == head[i]);
            } else {
                assert(whole[i] == tail[i - head.len()]);
            }
            if j < head.len() {
                assert(whole[j] == head[j]);
            } else {
                assert(whole[j] == tail[j - head.len()]);
            }
        }
    }
}

proof fn lemma_by_rank_empty(order: Seq<Seq<char>>, r: int)
    ensures
        by_rank_from(Seq::<Manager>::empty(), order, r) == Seq::<Manager>::empty(),
    decreases order.len() + 1 - r,
{
    if 0 <= r && r <= order.len() {
        lemma_by_rank_empty(order, r + 1);
        assert(with_rank(Seq::<Manager>::empty(), order, r) + Seq::<Manager>::empty() =~= Seq::<
            Manager,
        >::empty());
    }
}

proof fn lemma_by_rank_drop_last(ms: Seq<Manager>, order: Seq<Seq<char>>, r: int)
    requires
        ms.len() > 0,
        0 <= r,
    ensures
        rank(order, ms.last().name@) >= r ==> by_rank_from(ms, order, r).to_multiset()
            == by_rank_from(ms.drop_last(), order, r).to_multiset().insert(ms.last()),
        rank(order, ms.last().name@) < r ==> by_rank_from(ms, order, r) == by_rank_from(
            ms.drop_last(),
            order,
            r,
        ),
    decreases order.len() + 1 - r,
{
    broadcast use vstd::seq_lib::lemma_multiset_commutative;
    broadcast use vstd::seq_lib::group_to_multiset_ensures;
    broadcast use vstd::multiset::group_multiset_axioms;

    lemma_rank(order, ms.last().name@);
    let lr = rank(order, ms.last().name@);
    if 0 <= r && r <= order.len() {
        lemma_by_rank_drop_last(ms, order, r + 1);
        let h0 = with_rank(ms.drop_last(), order, r);
        let t0 = by_rank_from(ms.drop_last(), order, r + 1);
        let h1 = with_rank(ms, order, r);
        let t1 = by_rank_from(ms, order, r + 1);
        assert(by_rank_from(ms, order, r) == h1 + t1);
        assert(by_rank_from(ms.drop_last(), order, r) == h0 + t0);
        if lr < r {
            assert(h1 == h0 && t1 == t0);
        } else if lr == r {
            assert(h1 == h0.push(ms.last()) && t1 == t0);
            assert((h0.push(ms.last()) + t0).to_multiset() =~= (h0 + t0).to_multiset().insert(
                ms.last(),
            ));
            assert(by_rank_from(ms, order, r).to_multiset() =~= by_rank_from(
                ms.drop_last(),
                order,
                r,
            ).to_multiset().insert(ms.last()));
        } else {
            assert(h1 == h0);
            assert(t1.to_multiset() == t0.to_multiset().insert(ms.last()));
            assert((h0 + t1).to_multiset() =~= (h0 + t0).to_multiset().insert(ms.last()));
            assert(by_rank_from(ms, order, r).to_multiset() =~= by_rank_from(
                ms.drop_last(),
                order,
                r,
            ).to_multiset().insert(ms.last()));
        }
    } else {
        assert(by_rank_from(ms, order, r) == Seq::<Manager>::empty());
        assert(by_rank_from(ms.drop_last(), order, r) == Seq::<Manager>::empty());
    }
}

/// Law: ordering the managers permutes them — no manager is lost or
/// duplicated; the result holds exactly the discovered managers.
pub proof fn lemma_ordering_permutes(ms: Seq<Manager>, order: Seq<Seq<char>>)
    ensures
        ordered_managers(ms, order).to_multiset() == ms.to_multiset(),
    decreases ms.len(),
{
    broadcast use vstd::seq_lib::group_to_multiset_ensures;
    broadcast use vstd::multiset::group_multiset_axioms;

    if ms.len() == 0 {
        assert(ms =~= Seq::<Manager>::empty());
        lemma_by_rank_empty(order, 0);
        assert(Seq::<Manager>::empty().to_multiset() =~= ms.to_multiset());
    } else {
        lemma_ordering_permutes(ms.drop_last(), order);
        lemma_rank(order, ms.last().name@);
        lemma_by_rank_drop_last(ms, order, 0);
        assert(ms =~= ms.drop_last().push(ms.last()));
        assert(ms.drop_last().push(ms.last()).to_multiset() =~= ms.drop_last().to_multiset().insert(
            ms.last(),
        ));
        assert(ordered_managers(ms, order).to_multiset() =~= ordered_managers(
            ms.drop_last(),
            order,
        ).to_multiset().insert(ms.last()));
        assert(ordered_managers(ms, order).to_multiset() =~= ms.to_multiset());
    }
}

/// Removing the managers of one rank does not disturb the managers of any
/// other rank.
proof fn lemma_with_rank_after_removal(ms: Seq<Manager>, order: Seq<Seq<char>>, rr: int, r: int)
    requires
        rr != r,
    ensures
        with_rank(without_rank(ms, order, rr), order, r) == with_rank(ms, order, r),
    decreases ms.len(),
{
    if ms.len() > 0 {
        lemma_with_rank_after_removal(ms.drop_last(), order, rr, r);
        let w = without_rank(ms.drop_last(), order, rr);
        if rank(order, ms.last().name@) != rr {
            assert(without_rank(ms, order, rr) == w.push(ms.last()));
            assert(w.push(ms.last()).drop_last() =~= w);
            assert(w.push(ms.last()).last() == ms.last());
        } else {
            assert(without_rank(ms, order, rr) == w);
            assert(with_rank(ms, order, r) == with_rank(ms.drop_last(), order, r));
        }
    }
}

proof fn lemma_by_rank_after_removal(ms: Seq<Manager>, order: Seq<Seq<char>>, rr: int, r: int)
    requires
        rr < r,
    ensures
        by_rank_from(without_rank(ms, order, rr), order, r) == by_rank_from(ms, order, r),
    decreases order.len() + 1 - r,
{
    if 0 <= r && r <= order.len() {
        lemma_with_rank_after_removal(ms, order, rr, r);
        lemma_by_rank_after_removal(ms, order, rr, r + 1);
    }
}

/// Partition the managers into those of rank `r` and the rest, both in
/// discovery order.
fn take_rank(input: Vec<Manager>, order: &Vec<String>, r: usize) -> (res: (Vec<Manager>, Vec<
    Manager,
>))
    ensures
        res.0@ == with_rank(input@, views(order@), r as int),
        res.1@ == without_rank(input@, views(order@), r as int),
{
    let ghost orig = input@;
    let ghost ov = views(order@);
    let mut input = input;
    let mut matched: Vec<Manager> = Vec::new();
    let mut rest: Vec<Manager> = Vec::new();
    proof {
        assert(orig.take(0) =~= Seq::<Manager>::empty());
        assert(orig.skip(0) =~= orig);
    }
    while input.len() > 0
        invariant
            ov == views(order@),
            input@.len() <= orig.len(),
            input@ == orig.skip(orig.len() - input@.len()),
            matched@ == with_rank(orig.take(orig.len() - input@.len()), ov, r as int),
            rest@ == without_rank(orig.take(orig.len() - input@.len()), ov, r as int),
        decreases input@.len(),
    {
        let ghost k = orig.len() - input@.len();
        let m = input.remove(0);
        proof {
            assert(orig.skip(k)[0] == orig[k]);
            assert(m == orig[k]);
            assert(input@ =~= orig.skip(k + 1));
            assert(orig.take(k + 1).drop_last() =~= orig.take(k));
            assert(orig.take(k + 1).last() == orig[k]);
        }
        if rank_of(order, &m.name) == r {
            matched.push(m);
        } else {
            rest.push(m);
        }
        proof {
            assert(orig.len() - input@.len() == k + 1);
        }
    }
    proof {
        assert(orig.take(orig.len() - input@.len()) =~= orig);
    }
    (matched, rest)
}

/// Order the managers: by the position of each name in the ordering list,
/// names absent from the list after all present ones, ties (and all the
/// unordered managers) kept in discovery order. This is a stable sort on the
/// rank key.
pub fn order_managers(managers: Vec<Manager>, order: &Vec<String>) -> (r: Vec<Manager>)
    ensures
        r@ == ordered_managers(managers@, views(order@)),
{
    let ghost orig = managers@;
    let ghost ov = views(order@);
    let mut rest = managers;
    let mut result: Vec<Manager> = Vec::new();
    let mut r: usize = 0;
    proof {
        assert(Seq::<Manager>::empty() + by_rank_from(orig, ov, 0) =~= by_rank_from(orig, ov, 0));
    }
    loop
        invariant
            ov == views(order@),
            orig == managers@,
            r <= order@.len(),
            ordered_managers(orig, ov) == result@ + by_rank_from(rest@, ov, r as int),
        decreases order@.len() - r,
    {
        let ghost result0 = result@;
        let ghost rest0 = rest@;
        let (mut matched, remaining) = take_rank(rest, order, r);
        result.append(&mut matched);
        rest = remaining;
        proof {
            lemma_by_rank_after_removal(rest0, ov, r as int, r as int + 1);
            assert(by_rank_from(rest0, ov, r as int) == with_rank(rest0, ov, r as int)
                + by_rank_from(rest@, ov, r as int + 1));
            assert(result0 + (with_rank(rest0, ov, r as int) + by_rank_from(
                rest@,
                ov,
                r as int + 1,
            )) =~= result@ + by_rank_from(rest@, ov, r as int + 1));
        }
        if r == order.len() {
            proof {
                assert(by_rank_from(rest@, ov, r as int + 1) =~= Seq::<Manager>::empty());
                assert(result@ + Seq::<Manager>::empty() =~= result@);
            }
            return result;
        }
        r += 1;
    }
}

/// Whether some manager bears the given name.
pub open spec fn has_manager_named(ms: Seq<Manager>, name: Seq<char>) -> bool {
    exists|j: int| 0 <= j < ms.len() && ms[j].name@ == name
}

/// Linear scan for a manager of the given name.
pub fn manager_exists(managers: &Vec<Manager>, name: &String) -> (r: bool)
    ensures
        r == has_manager_named(managers@, name@),
{
    let mut j: usize = 0;
    while j < managers.len()
        invariant
            j <= managers@.len(),
            forall|l: int| 0 <= l < j ==> (#[trigger] managers@[l]).name@ != name@,
        decreases managers@.len() - j,
    {
        if str_eq(managers[j].name.as_str(), name.as_str()) {
            assert(managers@[j as int].name@ == name@);
            return true;
        }
        j += 1;
    }
    false
}

/// Check that every requested manager name matches a loaded manager; the
/// first name that matches none is an error naming it.
pub fn check_requested(managers: &Vec<Manager>, requested: &Vec<String>) -> (r: Result<
    (),
    ConfigError,
>)
    ensures
        match r {
            Result::Ok(_) => forall|i: int|
                0 <= i < requested@.len() ==> has_manager_named(
                    managers@,
                    (#[trigger] requested@[i])@,
                ),
            Result::Err(e) => exists|i: int|
                0 <= i < requested@.len() && !has_manager_named(
                    managers@,
                    (#[trigger] requested@[i])@,
                ) && e@ == ConfigErrorModel::ManagerNotFound(requested@[i]@) && (forall|k: int|
                    0 <= k < i ==> has_manager_named(managers@, (#[trigger] requested@[k])@)),
        },
{
    let mut i: usize = 0;
    while i < requested.len()
        invariant
            i <= requested@.len(),
            forall|k: int|
                0 <= k < i ==> has_manager_named(managers@, (#[trigger] requested@[k])@),
        decreases requested@.len() - i,
    {
        if !manager_exists(managers, &requested[i]) {
            let missing = requested[i].clone();
            return Err(ConfigError::ManagerNotFound(missing));
        }
        i += 1;
    }
    Ok(())
}

} // verus!
