//! The manager record: one external package-management tool, its command
//! templates and flags, and its derived item sets. Declarations are validated
//! against the schema here.

use vstd::prelude::*;

use crate::document::{DocValue, DocValueModel, doc_view};
use crate::error::{ConfigError, ConfigErrorModel};
use crate::strings::str_eq;
use crate::{distinct_seq, opt_view, seq_contains, views};

verus! {

/// Ghost image of a `Manager`: every field as a mathematical value.
pub struct ManagerModel {
    pub name: Seq<char>,
    pub add: Seq<char>,
    pub remove: Seq<char>,
    pub list: Seq<char>,
    pub upgrade: Option<Seq<char>>,
    pub remove_then_add: bool,
    pub items_separator: Option<Seq<char>>,
    pub items: Seq<Seq<char>>,
    pub items_to_add: Seq<Seq<char>>,
    pub items_to_remove: Seq<Seq<char>>,
}

/// The ghost images of a sequence of managers.
pub open spec fn models(ms: Seq<Manager>) -> Seq<ManagerModel> {
    ms.map_values(|m: Manager| m@)
}

/// One package-management tool. `items` is the desired set, filled by
/// resolution; `items_to_add` and `items_to_remove` are the reconciliation
/// result, consumed by command expansion.
#[derive(Debug)]
pub struct Manager {
    pub name: String,
    pub add: String,
    pub remove: String,
    pub list: String,
    pub upgrade: Option<String>,
    pub remove_then_add: bool,
    pub items_separator: Option<String>,
    pub items: Vec<String>,
    pub items_to_add: Vec<String>,
    pub items_to_remove: Vec<String>,
}

impl View for Manager {
    type V = ManagerModel;

    open spec fn view(&self) -> ManagerModel {
        ManagerModel {
            name: self.name@,
            add: self.add@,
            remove: self.remove@,
            list: self.list@,
            upgrade: opt_view(self.upgrade),
            remove_then_add: self.remove_then_add,
            items_separator: opt_view(self.items_separator),
            items: views(self.items@),
            items_to_add: views(self.items_to_add@),
            items_to_remove: views(self.items_to_remove@),
        }
    }
}

impl ManagerModel {
    /// The desired-item sequence holds no duplicates: it denotes a set.
    pub open spec fn wf(self) -> bool {
        distinct_seq(self.items)
    }

    /// Separator used when joining items; a single space unless configured.
    pub open spec fn separator(self) -> Seq<char> {
        match self.items_separator {
            Option::Some(s) => s,
            Option::None => " "@,
        }
    }
}

impl Manager {
    /// The separator to join `<items>` with.
    pub fn separator(&self) -> (r: &str)
        ensures
            r@ == self@.separator(),
    {
        match &self.items_separator {
            Option::Some(s) => s.as_str(),
            Option::None => " ",
        }
    }

    /// Insert one desired item; inserting a present item changes nothing.
    pub fn insert_item(&mut self, item: String)
        requires
            old(self)@.wf(),
        ensures
            final(self)@.wf(),
            final(self)@ == (ManagerModel {
                items: if seq_contains(old(self)@.items, item@) {
                    old(self)@.items
                } else {
                    old(self)@.items.push(item@)
                },
                ..old(self)@
            }),
    {
        if !crate::contains_string(&self.items, &item) {
            let ghost before = views(self.items@);
            self.items.push(item);
            proof {
                assert(views(self.items@) =~= before.push(item@));
            }
        }
    }
}

/// The declaration fields gathered while scanning a document.
pub struct DeclAccModel {
    pub add: Option<Seq<char>>,
    pub remove: Option<Seq<char>>,
    pub list: Option<Seq<char>>,
    pub upgrade: Option<Seq<char>>,
    pub remove_then_add: Option<bool>,
    pub items_separator: Option<Seq<char>>,
}

pub struct DeclAcc {
    pub add: Option<String>,
    pub remove: Option<String>,
    pub list: Option<String>,
    pub upgrade: Option<String>,
    pub remove_then_add: Option<bool>,
    pub items_separator: Option<String>,
}

impl View for DeclAcc {
    type V = DeclAccModel;

    open spec fn view(&self) -> DeclAccModel {
        DeclAccModel {
            add: opt_view(self.add),
            remove: opt_view(self.remove),
            list: opt_view(self.list),
            upgrade: opt_view(self.upgrade),
            remove_then_add: self.remove_then_add,
            items_separator: opt_view(self.items_separator),
        }
    }
}

/// The empty accumulator: no field seen yet.
pub open spec fn empty_acc() -> DeclAccModel {
    DeclAccModel {
        add: Option::None,
        remove: Option::None,
        list: Option::None,
        upgrade: Option::None,
        remove_then_add: Option::None,
        items_separator: Option::None,
    }
}

/// One schema step: entry `(k, v)` folded into the accumulator, or the error
/// it raises. A later occurrence of a field overwrites an earlier one.
pub open spec fn collect_entry(k: Seq<char>, v: DocValueModel, acc: DeclAccModel) -> Result<
    DeclAccModel,
    ConfigErrorModel,
> {
    if k == "add"@ {
        match v {
            DocValueModel::Text(s) => Result::Ok(DeclAccModel { add: Option::Some(s), ..acc }),
            _ => Result::Err(ConfigErrorModel::WrongFieldType(k)),
        }
    } else if k == "remove"@ {
        match v {
            DocValueModel::Text(s) => Result::Ok(DeclAccModel { remove: Option::Some(s), ..acc }),
            _ => Result::Err(ConfigErrorModel::WrongFieldType(k)),
        }
    } else if k == "list"@ {
        match v {
            DocValueModel::Text(s) => Result::Ok(DeclAccModel { list: Option::Some(s), ..acc }),
            _ => Result::Err(ConfigErrorModel::WrongFieldType(k)),
        }
    } else if k == "upgrade"@ {
        match v {
            DocValueModel::Text(s) => Result::Ok(DeclAccModel { upgrade: Option::Some(s), ..acc }),
            _ => Result::Err(ConfigErrorModel::WrongFieldType(k)),
        }
    } else if k == "remove_then_add"@ {
        match v {
            DocValueModel::Flag(b) => Result::Ok(
                DeclAccModel { remove_then_add: Option::Some(b), ..acc },
            ),
            _ => Result::Err(ConfigErrorModel::WrongFieldType(k)),
        }
    } else if k == "items_separator"@ {
        match v {
            DocValueModel::Text(s) => Result::Ok(
                DeclAccModel { items_separator: Option::Some(s), ..acc },
            ),
            _ => Result::Err(ConfigErrorModel::WrongFieldType(k)),
        }
    } else {
        Result::Err(ConfigErrorModel::UnknownField(k))
    }
}

/// All entries folded in order, or the first error raised.
pub open spec fn collect_decl(
    entries: Seq<(Seq<char>, DocValueModel)>,
    acc: DeclAccModel,
) -> Result<DeclAccModel, ConfigErrorModel>
    decreases entries.len(),
{
    if entries.len() == 0 {
        Result::Ok(acc)
    } else {
        match collect_entry(entries[0].0, entries[0].1, acc) {
            Result::Ok(acc2) => collect_decl(entries.skip(1), acc2),
            Result::Err(e) => Result::Err(e),
        }
    }
}

/// The manager a declaration document denotes: the schema applied to its
/// entries, required fields checked, defaults filled, item sets empty.
pub open spec fn manager_of_decl(name: Seq<char>, entries: Seq<(Seq<char>, DocValueModel)>) -> Result<
    ManagerModel,
    ConfigErrorModel,
> {
    match collect_decl(entries, empty_acc()) {
        Result::Err(e) => Result::Err(e),
        Result::Ok(acc) => if acc.add is None {
            Result::Err(ConfigErrorModel::MissingField("add"@))
        } else if acc.remove is None {
            Result::Err(ConfigErrorModel::MissingField("remove"@))
        } else if acc.list is None {
            Result::Err(ConfigErrorModel::MissingField("list"@))
        } else {
            Result::Ok(
                ManagerModel {
                    name: name,
                    add: acc.add.unwrap(),
                    remove: acc.remove.unwrap(),
                    list: acc.list.unwrap(),
                    upgrade: acc.upgrade,
                    remove_then_add: match acc.remove_then_add {
                        Option::Some(b) => b,
                        Option::None => false,
                    },
                    items_separator: acc.items_separator,
                    items: Seq::empty(),
                    items_to_add: Seq::empty(),
                    items_to_remove: Seq::empty(),
                },
            )
        },
    }
}

impl Manager {
    /// Validate a declaration document against the schema and build the
    /// manager it declares: `add`, `remove` and `list` are required strings;
    /// `upgrade` and `items_separator` are optional strings;
    /// `remove_then_add` is an optional boolean, false unless given; any
    /// other field is a schema error.
    pub fn from_document(name: String, doc: &Vec<(String, DocValue)>) -> (r: Result<
        Manager,
        ConfigError,
    >)
        ensures
            match r {
                Result::Ok(m) => manager_of_decl(name@, doc_view(doc@)) matches Result::Ok(mm)
                    && m@ == mm && m@.wf(),
                Result::Err(e) => manager_of_decl(name@, doc_view(doc@)) matches Result::Err(em)
                    && e@ == em,
            },
    {
        let ghost dv = doc_view(doc@);
        let mut acc = DeclAcc {
            add: None,
            remove: None,
            list: None,
            upgrade: None,
            remove_then_add: None,
            items_separator: None,
        };
        let mut i: usize = 0;
        proof {
            assert(dv.skip(0) =~= dv);
            assert(acc@ == empty_acc());
        }
        while i < doc.len()
            invariant
                dv == doc_view(doc@),
                i <= doc@.len(),
                dv.len() == doc@.len(),
                collect_decl(dv, empty_acc()) == collect_decl(dv.skip(i as int), acc@),
            decreases doc@.len() - i,
        {
            let ghost acc0 = acc@;
            proof {
                assert(dv.skip(i as int)[0] == dv[i as int]);
                assert(dv.skip(i as int).skip(1) =~= dv.skip(i + 1));
            }
            let (k, v) = &doc[i];
            let step_err: Option<ConfigError> = if str_eq(k.as_str(), "add") {
                match v {
                    DocValue::Text(s) => {
                        acc.add = Some(s.clone());
                        None
                    },
                    _ => Some(ConfigError::WrongFieldType(k.clone())),
                }
            } else if str_eq(k.as_str(), "remove") {
                match v {
                    DocValue::Text(s) => {
                        acc.remove = Some(s.clone());
                        None
                    },
                    _ => Some(ConfigError::WrongFieldType(k.clone())),
                }
            } else if str_eq(k.as_str(), "list") {
                match v {
                    DocValue::Text(s) => {
                        acc.list = Some(s.clone());
                        None
                    },
                    _ => Some(ConfigError::WrongFieldType(k.clone())),
                }
            } else if str_eq(k.as_str(), "upgrade") {
                match v {
                    DocValue::Text(s) => {
                        acc.upgrade = Some(s.clone());
                        None
                    },
                    _ => Some(ConfigError::WrongFieldType(k.clone())),
                }
            } else if str_eq(k.as_str(), "remove_then_add") {
                match v {
                    DocValue::Flag(b) => {
                        acc.remove_then_add = Some(*b);
                        None
                    },
                    _ => Some(ConfigError::WrongFieldType(k.clone())),
                }
            } else if str_eq(k.as_str(), "items_separator") {
                match v {
                    DocValue::Text(s) => {
                        acc.items_separator = Some(s.clone());
                        None
                    },
                    _ => Some(ConfigError::WrongFieldType(k.clone())),
                }
            } else {
                Some(ConfigError::UnknownField(k.clone()))
            };
            match step_err {
                Some(e) => {
                    proof {
                        assert(collect_entry(dv[i as int].0, dv[i as int].1, acc0)
                            == Result::<DeclAccModel, ConfigErrorModel>::Err(e@));
                    }
                    return Err(e);
                },
                None => {
                    proof {
                        assert(collect_entry(dv[i as int].0, dv[i as int].1, acc0)
                            == Result::<DeclAccModel, ConfigErrorModel>::Ok(acc@));
                    }
                },
            }
            i += 1;
        }
        proof {
            assert(dv.skip(doc@.len() as int) =~= Seq::<(Seq<char>, DocValueModel)>::empty());
            assert(collect_decl(dv, empty_acc()) == Result::<DeclAccModel, ConfigErrorModel>::Ok(
                acc@,
            ));
        }
        let DeclAcc { add, remove, list, upgrade, remove_then_add, items_separator } = acc;
        let add = match add {
            Some(s) => s,
            None => {
                return Err(ConfigError::MissingField("add".to_owned()));
            },
        };
        let remove = match remove {
            Some(s) => s,
            None => {
                return Err(ConfigError::MissingField("remove".to_owned()));
            },
        };
        let list = match list {
            Some(s) => s,
            None => {
                return Err(ConfigError::MissingField("list".to_owned()));
            },
        };
        let m = Manager {
            name,
            add,
            remove,
            list,
            upgrade,
            remove_then_add: match remove_then_add {
                Some(b) => b,
                None => false,
            },
            items_separator,
            items: Vec::new(),
            items_to_add: Vec::new(),
            items_to_remove: Vec::new(),
        };
        proof {
            assert(views(m.items@) =~= Seq::<Seq<char>>::empty());
            assert(views(m.items_to_add@) =~= Seq::<Seq<char>>::empty());
            assert(views(m.items_to_remove@) =~= Seq::<Seq<char>>::empty());
        }
        Ok(m)
    }
}

} // verus!
