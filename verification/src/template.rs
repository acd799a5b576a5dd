//! Command templating: expand an operation's template against its items, plan
//! the add/remove commands of every manager in execution order, and plan the
//! upgrade commands.

use vstd::prelude::*;

use crate::error::{ConfigError, ConfigErrorModel};
use crate::manager::{models, Manager, ManagerModel};
use crate::strings::{contains_pat, contains_str, joined, join_all, replace_all, replaced};
use crate::views;

verus! {

/// The single-item placeholder text.
pub open spec fn item_slot() -> Seq<char> {
    "<item>"@
}

/// The joined-items placeholder text.
pub open spec fn items_slot() -> Seq<char> {
    "<items>"@
}

/// The commands one operation expands to: one command per item when the
/// template holds `<item>`; otherwise one command with the items joined by
/// `sep` when it holds `<items>`; otherwise no expansion exists.
pub open spec fn expanded_commands(
    template: Seq<char>,
    items: Seq<Seq<char>>,
    sep: Seq<char>,
) -> Option<Seq<Seq<char>>> {
    if contains_pat(template, item_slot()) {
        Option::Some(items.map_values(|it: Seq<char>| replaced(template, item_slot(), it)))
    } else if contains_pat(template, items_slot()) {
        Option::Some(seq![replaced(template, items_slot(), joined(items, sep))])
    } else {
        Option::None
    }
}

/// Expand a command template against the given items. A template holding
/// `<item>` yields one command per item, the placeholder replaced by the
/// item's text verbatim; one holding only `<items>` yields a single command
/// with the items joined by the separator; one holding neither is a
/// configuration error.
pub fn fmt_run_command(format_command: &str, items: &Vec<String>, items_separator: &str) -> (r:
    Result<Vec<String>, ConfigError>)
    ensures
        match r {
            Result::Ok(cmds) => expanded_commands(format_command@, views(items@), items_separator@)
                == Option::Some(views(cmds@)),
            Result::Err(e) => expanded_commands(format_command@, views(items@), items_separator@)
                is None && e@ == ConfigErrorModel::NoPlaceholder,
        },
{
    proof {
        reveal_strlit("<item>");
        reveal_strlit("<items>");
    }
    let ghost iv = views(items@);
    if contains_str(format_command, "<item>") {
        let mut cmds: Vec<String> = Vec::new();
        let ghost f = |it: Seq<char>| replaced(format_command@, item_slot(), it);
        let mut i: usize = 0;
        proof {
            assert(iv.take(0).map_values(f) =~~= views(cmds@));
        }
        while i < items.len()
            invariant
                iv == views(items@),
                iv.len() == items@.len(),
                i <= items@.len(),
                f == (|it: Seq<char>| replaced(format_command@, item_slot(), it)),
                item_slot().len() >= 1,
                views(cmds@) == iv.take(i as int).map_values(f),
            decreases items@.len() - i,
        {
            let ghost before = views(cmds@);
            let cmd = replace_all(format_command, "<item>", items[i].as_str());
            cmds.push(cmd);
            proof {
                assert(views(cmds@) =~= before.push(f(iv[i as int])));
                assert(iv.take(i + 1).map_values(f) =~~= iv.take(i as int).map_values(f).push(
                    f(iv[i as int]),
                ));
            }
            i += 1;
        }
        proof {
            assert(iv.take(items@.len() as int) =~= iv);
        }
        Ok(cmds)
    } else if contains_str(format_command, "<items>") {
        let joined_items = join_all(items, items_separator);
        let cmd = replace_all(format_command, "<items>", joined_items.as_str());
        let mut cmds: Vec<String> = Vec::new();
        cmds.push(cmd);
        proof {
            assert(views(cmds@) =~= seq![
                replaced(format_command@, items_slot(), joined(iv, items_separator@)),
            ]);
        }
        Ok(cmds)
    } else {
        Err(ConfigError::NoPlaceholder)
    }
}

/// A manager's two operations in execution order — add then remove, reversed
/// when `remove_then_add` is set. An operation is its template and its items.
pub open spec fn operations_of(m: ManagerModel) -> Seq<(Seq<char>, Seq<Seq<char>>)> {
    let add_op = (m.add, m.items_to_add);
    let rem_op = (m.remove, m.items_to_remove);
    if m.remove_then_add {
        seq![rem_op, add_op]
    } else {
        seq![add_op, rem_op]
    }
}

/// The commands a sequence of operations plans: empty operations are skipped
/// entirely, the rest expand in order; no plan exists when some non-empty
/// operation's template holds no placeholder.
pub open spec fn ops_plan(ops: Seq<(Seq<char>, Seq<Seq<char>>)>, sep: Seq<char>) -> Option<
    Seq<Seq<char>>,
>
    decreases ops.len(),
{
    if ops.len() == 0 {
        Option::Some(Seq::empty())
    } else {
        let rest = ops_plan(ops.skip(1), sep);
        if ops[0].1.len() == 0 {
            rest
        } else {
            match (expanded_commands(ops[0].0, ops[0].1, sep), rest) {
                (Option::Some(c), Option::Some(r)) => Option::Some(c + r),
                _ => Option::None,
            }
        }
    }
}

/// The command plan of one manager.
pub open spec fn manager_plan(m: ManagerModel) -> Option<Seq<Seq<char>>> {
    ops_plan(operations_of(m), m.separator())
}

/// `o` with `pre` prepended to its contents, when it has any.
pub open spec fn plan_prepend(pre: Seq<Seq<char>>, o: Option<Seq<Seq<char>>>) -> Option<
    Seq<Seq<char>>,
> {
    match o {
        Option::Some(r) => Option::Some(pre + r),
        Option::None => Option::None,
    }
}

/// The command plan over all managers, in manager order.
pub open spec fn managers_plan(ms: Seq<ManagerModel>) -> Option<Seq<Seq<char>>>
    decreases ms.len(),
{
    if ms.len() == 0 {
        Option::Some(Seq::empty())
    } else {
        match manager_plan(ms[0]) {
            Option::Some(c) => plan_prepend(c, managers_plan(ms.skip(1))),
            Option::None => Option::None,
        }
    }
}

/// Expand one operation into `out` unless its item set is empty.
fn plan_operation(template: &String, items: &Vec<String>, sep: &str, out: &mut Vec<String>) -> (r:
    Result<(), ConfigError>)
    ensures
        match r {
            Result::Ok(_) => views(final(out)@) == views(old(out)@) + (if views(items@).len() == 0 {
                Seq::<Seq<char>>::empty()
            } else {
                expanded_commands(template@, views(items@), sep@).unwrap()
            }) && (views(items@).len() > 0 ==> expanded_commands(template@, views(items@), sep@)
                is Some),
            Result::Err(e) => views(items@).len() > 0 && expanded_commands(
                template@,
                views(items@),
                sep@,
            ) is None && e@ == ConfigErrorModel::NoPlaceholder && *final(out) == *old(out),
        },
{
    if items.len() == 0 {
        proof {
            assert(views(final(out)@) =~= views(old(out)@) + Seq::<Seq<char>>::empty());
        }
        return Ok(());
    }
    match fmt_run_command(template.as_str(), items, sep) {
        Ok(mut cmds) => {
            let ghost added = views(cmds@);
            out.append(&mut cmds);
            proof {
                assert(views(out@) =~= views(old(out)@) + added);
            }
            Ok(())
        },
        Err(e) => Err(e),
    }
}

/// Plan the add and remove commands of every manager, in manager order; for
/// each manager the add operation precedes the remove operation unless its
/// `remove_then_add` flag reverses the pair, and an operation with no items
/// is skipped. The plan is exactly the commands a run executes, in order;
/// a non-empty operation whose template holds no placeholder is an error.
#[verifier::rlimit(50)]
pub fn add_remove_items(managers: &Vec<Manager>) -> (r: Result<Vec<String>, ConfigError>)
    ensures
        match r {
            Result::Ok(cmds) => managers_plan(models(managers@)) == Option::Some(views(cmds@)),
            Result::Err(e) => managers_plan(models(managers@)) is None && e@
                == ConfigErrorModel::NoPlaceholder,
        },
{
    let ghost ms = models(managers@);
    let mut out: Vec<String> = Vec::new();
    let mut i: usize = 0;
    proof {
        assert(ms.skip(0) =~= ms);
        assert(Seq::<Seq<char>>::empty() + views(out@) =~= views(out@));
        assert(managers_plan(ms) == plan_prepend(views(out@), managers_plan(ms.skip(0))));
    }
    while i < managers.len()
        invariant
            ms == models(managers@),
            ms.len() == managers@.len(),
            i <= managers@.len(),
            managers_plan(ms) == plan_prepend(views(out@), managers_plan(ms.skip(i as int))),
        decreases managers@.len() - i,
    {
        let ghost out0 = views(out@);
        let ghost m = ms[i as int];
        proof {
            assert(ms.skip(i as int)[0] == ms[i as int]);
            assert(ms.skip(i as int).skip(1) =~= ms.skip(i + 1));
            assert(operations_of(m).skip(1) =~= seq![operations_of(m)[1]]);
            assert(operations_of(m).skip(1).skip(1) =~= Seq::<(Seq<char>, Seq<Seq<char>>)>::empty());
            assert(m == managers@[i as int]@);
        }
        let mgr = &managers[i];
        let sep = mgr.separator();
        let (t1, i1, t2, i2) = if mgr.remove_then_add {
            (&mgr.remove, &mgr.items_to_remove, &mgr.add, &mgr.items_to_add)
        } else {
            (&mgr.add, &mgr.items_to_add, &mgr.remove, &mgr.items_to_remove)
        };
        let ghost op1 = operations_of(m)[0];
        let ghost op2 = operations_of(m)[1];
        match plan_operation(t1, i1, sep, &mut out) {
            Ok(_) => {},
            Err(e) => {
                proof {
                    assert(operations_of(m)[0] == op1);
                    assert(manager_plan(m) is None);
                    assert(managers_plan(ms.skip(i as int)) is None);
                }
                return Err(e);
            },
        }
        match plan_operation(t2, i2, sep, &mut out) {
            Ok(_) => {},
            Err(e) => {
                proof {
                    let sepv = m.separator();
                    let tail = operations_of(m).skip(1);
                    assert(tail[0] == op2);
                    assert(ops_plan(tail, sepv) is None);
                    assert(manager_plan(m) is None);
                    assert(managers_plan(ms.skip(i as int)) is None);
                }
                return Err(e);
            },
        }
        proof {
            let sepv = m.separator();
            let c1 = if op1.1.len() == 0 {
                Seq::<Seq<char>>::empty()
            } else {
                expanded_commands(op1.0, op1.1, sepv).unwrap()
            };
            let c2 = if op2.1.len() == 0 {
                Seq::<Seq<char>>::empty()
            } else {
                expanded_commands(op2.0, op2.1, sepv).unwrap()
            };
            assert(views(out@) =~= (out0 + c1) + c2);
            let tail = operations_of(m).skip(1);
            assert(tail.skip(1).len() == 0);
            assert(ops_plan(tail.skip(1), sepv) == Option::Some(Seq::<Seq<char>>::empty()));
            assert(tail[0] == op2);
            let rest1 = ops_plan(tail, sepv);
            assert(c2 + Seq::<Seq<char>>::empty() =~= c2);
            assert(rest1 == Option::Some(c2));
            assert(manager_plan(m) == Option::Some(c1 + c2)) by {
                if op1.1.len() == 0 {
                    assert(c1 + c2 =~= c2);
                }
            }
            assert(out0 + (c1 + c2) =~= (out0 + c1) + c2);
            assert(managers_plan(ms) == plan_prepend(views(out@), managers_plan(ms.skip(i + 1))));
        }
        i += 1;
    }
    proof {
        assert(ms.skip(managers@.len() as int) =~= Seq::<ManagerModel>::empty());
        assert(views(out@) + Seq::<Seq<char>>::empty() =~= views(out@));
    }
    Ok(out)
}

/// The upgrade commands of the managers that have one, in manager order.
pub open spec fn upgrade_plan(ms: Seq<ManagerModel>) -> Seq<Seq<char>>
    decreases ms.len(),
{
    if ms.len() == 0 {
        Seq::empty()
    } else {
        match ms[0].upgrade {
            Option::Some(u) => seq![u] + upgrade_plan(ms.skip(1)),
            Option::None => upgrade_plan(ms.skip(1)),
        }
    }
}

/// Plan the upgrade commands: each manager's configured upgrade command,
/// verbatim and in manager order; a manager without one is skipped.
pub fn upgrade(managers: &Vec<Manager>) -> (r: Vec<String>)
    ensures
        views(r@) == upgrade_plan(models(managers@)),
{
    let ghost ms = models(managers@);
    let mut out: Vec<String> = Vec::new();
    let mut i: usize = 0;
    proof {
        assert(ms.skip(0) =~= ms);
        assert(views(out@) + upgrade_plan(ms) =~~= upgrade_plan(ms));
    }
    while i < managers.len()
        invariant
            ms == models(managers@),
            ms.len() == managers@.len(),
            i <= managers@.len(),
            upgrade_plan(ms) == views(out@) + upgrade_plan(ms.skip(i as int)),
        decreases managers@.len() - i,
    {
        let ghost out0 = views(out@);
        proof {
            assert(ms.skip(i as int)[0] == ms[i as int]);
            assert(ms.skip(i as int).skip(1) =~= ms.skip(i + 1));
            assert(ms[i as int] == managers@[i as int]@);
        }
        match &managers[i].upgrade {
            Some(u) => {
                out.push(u.clone());
                proof {
                    assert(views(out@) =~= out0.push(u@));
                    assert(out0 + (seq![u@] + upgrade_plan(ms.skip(i + 1))) =~~= out0.push(u@)
                        + upgrade_plan(ms.skip(i + 1)));
                }
            },
            None => {},
        }
        i += 1;
    }
    proof {
        assert(ms.skip(managers@.len() as int) =~= Seq::<ManagerModel>::empty());
        assert(views(out@) + upgrade_plan(Seq::<ManagerModel>::empty()) =~~= views(out@));
    }
    out
}

/// Law: operation ordering. When both item sets are non-empty and both
/// templates expand, a manager with `remove_then_add` set plans every remove
/// command before any add command, and one with the flag clear plans every
/// add command before any remove command.
pub proof fn lemma_operation_order(m: ManagerModel, addc: Seq<Seq<char>>, remc: Seq<Seq<char>>)
    requires
        m.items_to_add.len() > 0,
        m.items_to_remove.len() > 0,
        expanded_commands(m.add, m.items_to_add, m.separator()) == Option::Some(addc),
        expanded_commands(m.remove, m.items_to_remove, m.separator()) == Option::Some(remc),
    ensures
        manager_plan(m) == Option::Some(
            (if m.remove_then_add {
                remc + addc
            } else {
                addc + remc
            }),
        ),
{
    let ops = operations_of(m);
    let tail = ops.skip(1);
    assert(tail.skip(1).len() == 0);
    assert(ops_plan(tail.skip(1), m.separator()) == Option::Some(Seq::<Seq<char>>::empty()));
    let c2 = if m.remove_then_add {
        addc
    } else {
        remc
    };
    assert(tail[0] == ops[1]);
    assert(c2 + Seq::<Seq<char>>::empty() =~= c2);
    assert(ops_plan(tail, m.separator()) == Option::Some(c2));
}

} // verus!
