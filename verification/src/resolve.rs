//! Import-graph resolution: an append-only, duplicate-suppressing worklist of
//! document identifiers, and the merge of one parsed document into the
//! managers' desired sets and the worklist.

use vstd::prelude::*;

use crate::document::{parse_toml_document, toml_doc_of, DocItemModel, DocValue, DocValueModel, doc_view};
use crate::error::{ConfigError, ConfigErrorModel};
use crate::manager::{models, Manager, ManagerModel};
use crate::strings::{str_eq, trim_end_ws, trimmed_end};
use crate::{contains_string, distinct_seq, seq_contains, views};

verus! {

/// The reserved key that names further documents to merge.
pub open spec fn imports_key() -> Seq<char> {
    "imports"@
}

/// The root document identifier of a machine: the machines directory beside
/// the documents directory, then the hostname trimmed of trailing whitespace.
pub fn root_document_id(hostname: &str) -> (r: String)
    ensures
        r@ == "../machines/"@ + trimmed_end(hostname@),
{
    let mut out = "../machines/".to_owned();
    let t = trim_end_ws(hostname);
    out.append(t.as_str());
    out
}

/// `wl` with `id` appended, unless already present.
pub open spec fn enqueued(wl: Seq<Seq<char>>, id: Seq<char>) -> Seq<Seq<char>> {
    if seq_contains(wl, id) {
        wl
    } else {
        wl.push(id)
    }
}

/// `wl` with each identifier enqueued in order.
pub open spec fn enqueued_all(wl: Seq<Seq<char>>, ids: Seq<Seq<char>>) -> Seq<Seq<char>>
    decreases ids.len(),
{
    if ids.len() == 0 {
        wl
    } else {
        enqueued_all(enqueued(wl, ids[0]), ids.skip(1))
    }
}

/// Law: re-importing an identifier changes nothing. Enqueueing is idempotent,
/// so a document imported twice — directly, or through a cycle of documents
/// importing each other — is enqueued, and hence processed, exactly once.
pub proof fn lemma_reimport_once(wl: Seq<Seq<char>>, id: Seq<char>)
    ensures
        enqueued(enqueued(wl, id), id) == enqueued(wl, id),
{
    if !seq_contains(wl, id) {
        assert(wl.push(id)[wl.len() as int] == id);
        assert(seq_contains(wl.push(id), id));
    }
}

pub proof fn lemma_enqueued_distinct(wl: Seq<Seq<char>>, id: Seq<char>)
    requires
        distinct_seq(wl),
    ensures
        distinct_seq(enqueued(wl, id)),
        wl.is_prefix_of(enqueued(wl, id)),
{
    if !seq_contains(wl, id) {
        assert forall|i: int, j: int| 0 <= i < j < wl.push(id).len() implies wl.push(id)[i]
            != wl.push(id)[j] by {
            if j < wl.len() {
            } else {
                assert(wl.push(id)[j] == id);
                assert(wl.push(id)[i] == wl[i]);
                assert(!seq_contains(wl, id));
            }
        }
        assert(wl.is_prefix_of(wl.push(id)));
    } else {
        assert(wl.is_prefix_of(wl));
    }
}

/// Law: the worklist stays duplicate-free and append-only through any merge:
/// enqueueing any identifiers preserves distinctness, and the old worklist is
/// a prefix of the new one — processing order, and thus resolution order, is
/// never disturbed by later imports.
pub proof fn lemma_enqueued_all_distinct(wl: Seq<Seq<char>>, ids: Seq<Seq<char>>)
    requires
        distinct_seq(wl),
    ensures
        distinct_seq(enqueued_all(wl, ids)),
        wl.is_prefix_of(enqueued_all(wl, ids)),
    decreases ids.len(),
{
    if ids.len() > 0 {
        lemma_enqueued_distinct(wl, ids[0]);
        lemma_enqueued_all_distinct(enqueued(wl, ids[0]), ids.skip(1));
        let mid = enqueued(wl, ids[0]);
        let end = enqueued_all(wl, ids);
        assert(wl.is_prefix_of(mid));
        assert(mid.is_prefix_of(end));
        assert(wl.is_prefix_of(end)) by {
            assert(wl =~= mid.take(wl.len() as int));
            assert(mid =~= end.take(mid.len() as int));
            assert forall|i: int| 0 <= i < wl.len() implies wl[i] == end.take(
                wl.len() as int,
            )[i] by {
                assert(wl[i] == mid[i]);
                assert(mid[i] == end[i]);
            }
            assert(wl =~= end.take(wl.len() as int));
        }
    } else {
        assert(wl.is_prefix_of(wl));
    }
}

/// The item strings one document value declares: a string is one item, an
/// array of strings is each of them, an array with a non-string element is an
/// error naming that element, and a value of any other kind declares nothing.
pub open spec fn items_of_value(v: DocValueModel) -> Result<Seq<Seq<char>>, Seq<char>> {
    match v {
        DocValueModel::Text(s) => Result::Ok(seq![s]),
        DocValueModel::Many(elems) => items_of_elems(elems),
        DocValueModel::Flag(_) => Result::Ok(Seq::empty()),
        DocValueModel::Other(_) => Result::Ok(Seq::empty()),
    }
}

/// The strings of an item array, or the debug text of its first non-string
/// element.
pub open spec fn items_of_elems(elems: Seq<DocItemModel>) -> Result<Seq<Seq<char>>, Seq<char>>
    decreases elems.len(),
{
    if elems.len() == 0 {
        Result::Ok(Seq::empty())
    } else {
        match elems[0] {
            DocItemModel::Text(s) => match items_of_elems(elems.skip(1)) {
                Result::Ok(rest) => Result::Ok(seq![s] + rest),
                Result::Err(e) => Result::Err(e),
            },
            DocItemModel::Other(d) => Result::Err(d),
        }
    }
}

/// A whole document reduced to keyed item lists, or its first error.
pub open spec fn validated_entries(entries: Seq<(Seq<char>, DocValueModel)>) -> Result<
    Seq<(Seq<char>, Seq<Seq<char>>)>,
    Seq<char>,
>
    decreases entries.len(),
{
    if entries.len() == 0 {
        Result::Ok(Seq::empty())
    } else {
        match items_of_value(entries[0].1) {
            Result::Err(d) => Result::Err(d),
            Result::Ok(items) => match validated_entries(entries.skip(1)) {
                Result::Ok(rest) => Result::Ok(seq![(entries[0].0, items)] + rest),
                Result::Err(e) => Result::Err(e),
            },
        }
    }
}

/// `m` with each item inserted into its desired set, present items skipped.
pub open spec fn added_items(m: ManagerModel, items: Seq<Seq<char>>) -> ManagerModel
    decreases items.len(),
{
    if items.len() == 0 {
        m
    } else {
        let m2 = ManagerModel {
            items: if seq_contains(m.items, items[0]) {
                m.items
            } else {
                m.items.push(items[0])
            },
            ..m
        };
        added_items(m2, items.skip(1))
    }
}

/// The position of the first manager named `k`, or the length when none is.
pub open spec fn name_index(ms: Seq<ManagerModel>, k: Seq<char>) -> int
    decreases ms.len(),
{
    if ms.len() == 0 {
        0
    } else if ms[0].name == k {
        0
    } else {
        1 + name_index(ms.skip(1), k)
    }
}

pub proof fn lemma_name_index(ms: Seq<ManagerModel>, k: Seq<char>)
    ensures
        0 <= name_index(ms, k) <= ms.len(),
        name_index(ms, k) < ms.len() ==> ms[name_index(ms, k)].name == k,
        forall|j: int| 0 <= j < name_index(ms, k) ==> (#[trigger] ms[j]).name != k,
    decreases ms.len(),
{
    if ms.len() > 0 && ms[0].name != k {
        lemma_name_index(ms.skip(1), k);
        assert forall|j: int| 0 <= j < name_index(ms, k) implies (#[trigger] ms[j]).name != k by {
            if j > 0 {
                assert(ms.skip(1)[j - 1] == ms[j]);
            }
        }
    }
}

/// The managers after items are declared for key `k`: the first manager of
/// that name takes the items into its desired set; with no manager of that
/// name the items are silently discarded.
pub open spec fn declared_items(ms: Seq<ManagerModel>, k: Seq<char>, items: Seq<Seq<char>>) -> Seq<
    ManagerModel,
> {
    if name_index(ms, k) < ms.len() {
        ms.update(name_index(ms, k), added_items(ms[name_index(ms, k)], items))
    } else {
        ms
    }
}

/// One validated entry applied to the worklist and managers.
pub open spec fn applied_entry(
    wl: Seq<Seq<char>>,
    ms: Seq<ManagerModel>,
    k: Seq<char>,
    items: Seq<Seq<char>>,
) -> (Seq<Seq<char>>, Seq<ManagerModel>) {
    if k == imports_key() {
        (enqueued_all(wl, items), ms)
    } else {
        (wl, declared_items(ms, k, items))
    }
}

/// All validated entries applied in order.
pub open spec fn applied_entries(
    wl: Seq<Seq<char>>,
    ms: Seq<ManagerModel>,
    ve: Seq<(Seq<char>, Seq<Seq<char>>)>,
) -> (Seq<Seq<char>>, Seq<ManagerModel>)
    decreases ve.len(),
{
    if ve.len() == 0 {
        (wl, ms)
    } else {
        let st = applied_entry(wl, ms, ve[0].0, ve[0].1);
        applied_entries(st.0, st.1, ve.skip(1))
    }
}

/// What merging one document text does to the state: the text parsed, its
/// entries validated, then applied in order — or the error that stops the
/// run, leaving the state untouched.
pub open spec fn resolved_doc(
    wl: Seq<Seq<char>>,
    ms: Seq<ManagerModel>,
    text: Seq<char>,
) -> Result<(Seq<Seq<char>>, Seq<ManagerModel>), ConfigErrorModel> {
    match toml_doc_of(text) {
        Result::Err(msg) => Result::Err(ConfigErrorModel::ParseFailed(msg)),
        Result::Ok(entries) => match validated_entries(entries) {
            Result::Err(d) => Result::Err(ConfigErrorModel::NonStringItem(d)),
            Result::Ok(ve) => Result::Ok(applied_entries(wl, ms, ve)),
        },
    }
}

/// The state after a sequence of document texts is merged in order.
pub open spec fn run_documents(
    wl: Seq<Seq<char>>,
    ms: Seq<ManagerModel>,
    texts: Seq<Seq<char>>,
) -> Result<(Seq<Seq<char>>, Seq<ManagerModel>), ConfigErrorModel>
    decreases texts.len(),
{
    if texts.len() == 0 {
        Result::Ok((wl, ms))
    } else {
        match resolved_doc(wl, ms, texts[0]) {
            Result::Ok(st) => run_documents(st.0, st.1, texts.skip(1)),
            Result::Err(e) => Result::Err(e),
        }
    }
}

/// Law: resolution order is deterministic. The state a run reaches — and so
/// the worklist traversal order and the place of any reported error — is a
/// function of the starting state and the document texts alone: two runs over
/// equal inputs agree exactly. `Worklist::apply_document` pins its result to
/// `resolved_doc`, and a parsed document is a function of its text, so no
/// hidden state can perturb the traversal.
pub proof fn lemma_resolution_deterministic(
    wl1: Seq<Seq<char>>,
    ms1: Seq<ManagerModel>,
    texts1: Seq<Seq<char>>,
    wl2: Seq<Seq<char>>,
    ms2: Seq<ManagerModel>,
    texts2: Seq<Seq<char>>,
)
    requires
        wl1 == wl2,
        ms1 == ms2,
        texts1 == texts2,
    ensures
        run_documents(wl1, ms1, texts1) == run_documents(wl2, ms2, texts2),
{
}

/// The append-only, duplicate-suppressing worklist of document identifiers,
/// with a cursor marking how much of it is processed.
pub struct Worklist {
    pub entries: Vec<String>,
    pub cursor: usize,
}

impl Worklist {
    /// No identifier occurs twice, and the cursor is inside the list.
    pub open spec fn wf(self) -> bool {
        distinct_seq(views(self.entries@)) && self.cursor <= self.entries@.len()
    }

    /// Seed the worklist with the root document identifier.
    pub fn new(root: String) -> (r: Worklist)
        ensures
            r.wf(),
            views(r.entries@) == seq![root@],
            r.cursor == 0,
    {
        let mut entries: Vec<String> = Vec::new();
        entries.push(root);
        proof {
            assert(views(entries@) =~= seq![root@]);
        }
        Worklist { entries, cursor: 0 }
    }

    /// The next unprocessed identifier, in insertion order; the cursor
    /// advances and entries are never removed, so late appends are reached.
    pub fn next_id(&mut self) -> (r: Option<String>)
        requires
            old(self).wf(),
        ensures
            final(self).wf(),
            final(self).entries == old(self).entries,
            match r {
                Option::Some(id) => old(self).cursor < old(self).entries@.len() && id@ == views(
                    old(self).entries@,
                )[old(self).cursor as int] && final(self).cursor == old(self).cursor + 1,
                Option::None => old(self).cursor == old(self).entries@.len() && final(self).cursor
                    == old(self).cursor,
            },
    {
        if self.cursor < self.entries.len() {
            let id = self.entries[self.cursor].clone();
            self.cursor = self.cursor + 1;
            Some(id)
        } else {
            None
        }
    }
}

/// The item strings a document value declares, as executable values.
fn items_of(v: &DocValue) -> (r: Result<Vec<String>, ConfigError>)
    ensures
        match r {
            Result::Ok(items) => items_of_value(v@) == Result::<_, Seq<char>>::Ok(views(items@)),
            Result::Err(e) => items_of_value(v@) matches Result::Err(d) && e@
                == ConfigErrorModel::NonStringItem(d),
        },
{
    match v {
        DocValue::Text(s) => {
            let mut items: Vec<String> = Vec::new();
            items.push(s.clone());
            proof {
                assert(views(items@) =~= seq![s@]);
            }
            Ok(items)
        },
        DocValue::Flag(_) => {
            let items: Vec<String> = Vec::new();
            proof {
                assert(views(items@) =~= Seq::<Seq<char>>::empty());
            }
            Ok(items)
        },
        DocValue::Other(_) => {
            let items: Vec<String> = Vec::new();
            proof {
                assert(views(items@) =~= Seq::<Seq<char>>::empty());
            }
            Ok(items)
        },
        DocValue::Many(elems) => {
            let ghost ev = elems@.map_values(|d: crate::document::DocItem| d@);
            let mut items: Vec<String> = Vec::new();
            let mut t: usize = 0;
            proof {
                assert(ev.skip(0) =~= ev);
                assert(views(items@) =~= Seq::<Seq<char>>::empty());
            }
            while t < elems.len()
                invariant
                    ev == elems@.map_values(|d: crate::document::DocItem| d@),
                    ev.len() == elems@.len(),
                    v@ == DocValueModel::Many(ev),
                    t <= elems@.len(),
                    items_of_elems(ev) == (match items_of_elems(ev.skip(t as int)) {
                        Result::<Seq<Seq<char>>, Seq<char>>::Ok(rest) => Result::<
                            Seq<Seq<char>>,
                            Seq<char>,
                        >::Ok(views(items@) + rest),
                        Result::<Seq<Seq<char>>, Seq<char>>::Err(e) => Result::<
                            Seq<Seq<char>>,
                            Seq<char>,
                        >::Err(e),
                    }),
                decreases elems@.len() - t,
            {
                let ghost items0 = views(items@);
                proof {
                    assert(ev.skip(t as int)[0] == ev[t as int]);
                    assert(ev.skip(t as int).skip(1) =~= ev.skip(t + 1));
                    assert(ev[t as int] == elems@[t as int]@);
                }
                match &elems[t] {
                    crate::document::DocItem::Text(s) => {
                        items.push(s.clone());
                        proof {
                            assert(views(items@) =~= items0.push(s@));
                            if items_of_elems(ev.skip(t + 1)) is Ok {
                                let rest = items_of_elems(ev.skip(t + 1))->Ok_0;
                                assert(items0 + (seq![s@] + rest) =~= views(items@) + rest);
                            }
                        }
                    },
                    crate::document::DocItem::Other(d) => {
                        proof {
                            assert(items_of_elems(ev.skip(t as int)) == Result::<
                                Seq<Seq<char>>,
                                Seq<char>,
                            >::Err(d@));
                            assert(items_of_elems(ev) == Result::<Seq<Seq<char>>, Seq<char>>::Err(
                                d@,
                            ));
                            assert(items_of_value(v@) == Result::<Seq<Seq<char>>, Seq<char>>::Err(
                                d@,
                            ));
                        }
                        return Err(ConfigError::NonStringItem(d.clone()));
                    },
                }
                t += 1;
            }
            proof {
                assert(ev.skip(elems@.len() as int) =~= Seq::<DocItemModel>::empty());
                assert(views(items@) + Seq::<Seq<char>>::empty() =~= views(items@));
            }
            Ok(items)
        },
    }
}

impl Worklist {
    /// Append each identifier that is not already present, in order.
    fn enqueue_all(&mut self, ids: &Vec<String>)
        requires
            old(self).wf(),
        ensures
            final(self).wf(),
            final(self).cursor == old(self).cursor,
            views(final(self).entries@) == enqueued_all(views(old(self).entries@), views(ids@)),
    {
        let ghost idv = views(ids@);
        let ghost wl0 = views(self.entries@);
        let mut t: usize = 0;
        proof {
            assert(idv.skip(0) =~= idv);
        }
        while t < ids.len()
            invariant
                idv == views(ids@),
                idv.len() == ids@.len(),
                t <= ids@.len(),
                self.wf(),
                self.cursor == old(self).cursor,
                enqueued_all(wl0, idv) == enqueued_all(views(self.entries@), idv.skip(t as int)),
            decreases ids@.len() - t,
        {
            let ghost cur = views(self.entries@);
            proof {
                assert(idv.skip(t as int)[0] == idv[t as int]);
                assert(idv.skip(t as int).skip(1) =~= idv.skip(t + 1));
                assert(idv[t as int] == ids@[t as int]@);
                lemma_enqueued_distinct(cur, idv[t as int]);
            }
            if !contains_string(&self.entries, &ids[t]) {
                let id = ids[t].clone();
                self.entries.push(id);
                proof {
                    assert(views(self.entries@) =~= cur.push(idv[t as int]));
                }
            }
            t += 1;
        }
        proof {
            assert(idv.skip(ids@.len() as int) =~= Seq::<Seq<char>>::empty());
        }
    }
}

/// Insert items into the desired set of the first manager named `k`; no
/// manager of that name discards the items silently.
fn declare_items(managers: &mut Vec<Manager>, k: &String, items: &Vec<String>)
    requires
        forall|j: int| 0 <= j < old(managers)@.len() ==> (#[trigger] old(managers)@[j])@.wf(),
    ensures
        forall|j: int| 0 <= j < final(managers)@.len() ==> (#[trigger] final(managers)@[j])@.wf(),
        models(final(managers)@) == declared_items(models(old(managers)@), k@, views(items@)),
{
    let ghost ms0 = models(managers@);
    proof {
        lemma_name_index(ms0, k@);
    }
    let mut j: usize = 0;
    while j < managers.len()
        invariant
            managers == old(managers),
            ms0 == models(managers@),
            ms0.len() == managers@.len(),
            j <= managers@.len(),
            forall|l: int| 0 <= l < j ==> (#[trigger] ms0[l]).name != k@,
            forall|l: int| 0 <= l < managers@.len() ==> (#[trigger] managers@[l])@.wf(),
        decreases managers@.len() - j,
    {
        proof {
            assert(ms0[j as int] == managers@[j as int]@);
        }
        if str_eq(managers[j].name.as_str(), k.as_str()) {
            proof {
                lemma_name_index(ms0, k@);
                assert(name_index(ms0, k@) == j) by {
                    let ni = name_index(ms0, k@);
                    if ni < j {
                        assert(ms0[ni].name == k@);
                    }
                    if j < ni {
                        assert(ms0[j as int].name != k@);
                    }
                }
            }
            let mut m = managers.remove(j);
            let ghost mstart = m@;
            let ghost itv = views(items@);
            let mut t: usize = 0;
            proof {
                assert(itv.skip(0) =~= itv);
            }
            while t < items.len()
                invariant
                    itv == views(items@),
                    itv.len() == items@.len(),
                    t <= items@.len(),
                    m@.wf(),
                    added_items(mstart, itv) == added_items(m@, itv.skip(t as int)),
                decreases items@.len() - t,
            {
                proof {
                    assert(itv.skip(t as int)[0] == itv[t as int]);
                    assert(itv.skip(t as int).skip(1) =~= itv.skip(t + 1));
                    assert(itv[t as int] == items@[t as int]@);
                }
                let item = items[t].clone();
                m.insert_item(item);
                t += 1;
            }
            proof {
                assert(itv.skip(items@.len() as int) =~= Seq::<Seq<char>>::empty());
                assert(m@ == added_items(mstart, itv));
            }
            managers.insert(j, m);
            proof {
                assert(models(managers@) =~= ms0.update(j as int, added_items(ms0[j as int], itv)));
            }
            return ;
        }
        j += 1;
    }
    proof {
        lemma_name_index(ms0, k@);
        assert(name_index(ms0, k@) == ms0.len()) by {
            let ni = name_index(ms0, k@);
            if ni < ms0.len() {
                assert(ms0[ni].name == k@);
            }
        }
        assert(models(managers@) == declared_items(ms0, k@, views(items@)));
    }
}

impl Worklist {
    /// Merge one document's text: parse it, validate every entry, then fold
    /// each entry in order — items under the reserved imports key enqueue
    /// further documents (duplicates suppressed), items under a manager's
    /// name join its desired set, and items under any other key are silently
    /// discarded. On an error — unparsable text, or a non-string array
    /// element — nothing changes.
    pub fn apply_document(&mut self, managers: &mut Vec<Manager>, text: &str) -> (r: Result<
        (),
        ConfigError,
    >)
        requires
            old(self).wf(),
            forall|j: int| 0 <= j < old(managers)@.len() ==> (#[trigger] old(managers)@[j])@.wf(),
        ensures
            final(self).wf(),
            final(self).cursor == old(self).cursor,
            forall|j: int|
                0 <= j < final(managers)@.len() ==> (#[trigger] final(managers)@[j])@.wf(),
            views(old(self).entries@).is_prefix_of(views(final(self).entries@)),
            match r {
                Result::Ok(_) => resolved_doc(
                    views(old(self).entries@),
                    models(old(managers)@),
                    text@,
                ) == Result::<_, ConfigErrorModel>::Ok(
                    (views(final(self).entries@), models(final(managers)@)),
                ),
                Result::Err(e) => resolved_doc(
                    views(old(self).entries@),
                    models(old(managers)@),
                    text@,
                ) == Result::<(Seq<Seq<char>>, Seq<ManagerModel>), ConfigErrorModel>::Err(e@)
                    && final(self).entries == old(self).entries && models(final(managers)@)
                    == models(old(managers)@),
            },
    {
        let ghost wl0 = views(self.entries@);
        let ghost ms0 = models(managers@);
        proof {
            assert(wl0.is_prefix_of(wl0));
        }
        let doc = match parse_toml_document(text) {
            Ok(d) => d,
            Err(msg) => {
                return Err(ConfigError::ParseFailed(msg));
            },
        };
        let ghost dv = doc_view(doc@);
        // Validate every entry before touching any state.
        let mut ve: Vec<(String, Vec<String>)> = Vec::new();
        let ghost vem = |p: (String, Vec<String>)| (p.0@, views(p.1@));
        let mut t: usize = 0;
        proof {
            assert(dv.skip(0) =~= dv);
            assert(ve@.map_values(vem) =~= Seq::<(Seq<char>, Seq<Seq<char>>)>::empty());
        }
        while t < doc.len()
            invariant
                dv == doc_view(doc@),
                dv.len() == doc@.len(),
                toml_doc_of(text@) == Result::<Seq<(Seq<char>, DocValueModel)>, Seq<char>>::Ok(dv),
                t <= doc@.len(),
                self.entries == old(self).entries,
                self.cursor == old(self).cursor,
                self.wf(),
                managers@ == old(managers)@,
                forall|j: int| 0 <= j < managers@.len() ==> (#[trigger] managers@[j])@.wf(),
                vem == (|p: (String, Vec<String>)| (p.0@, views(p.1@))),
                validated_entries(dv) == (match validated_entries(dv.skip(t as int)) {
                    Result::<Seq<(Seq<char>, Seq<Seq<char>>)>, Seq<char>>::Ok(rest) => Result::<
                        Seq<(Seq<char>, Seq<Seq<char>>)>,
                        Seq<char>,
                    >::Ok(ve@.map_values(vem) + rest),
                    Result::<Seq<(Seq<char>, Seq<Seq<char>>)>, Seq<char>>::Err(e) => Result::<
                        Seq<(Seq<char>, Seq<Seq<char>>)>,
                        Seq<char>,
                    >::Err(e),
                }),
            decreases doc@.len() - t,
        {
            let ghost pre0 = ve@.map_values(vem);
            proof {
                assert(dv.skip(t as int)[0] == dv[t as int]);
                assert(dv.skip(t as int).skip(1) =~= dv.skip(t + 1));
                assert(dv[t as int] == (doc@[t as int].0@, doc@[t as int].1@));
            }
            let (k, v) = &doc[t];
            match items_of(v) {
                Ok(items) => {
                    let key = k.clone();
                    ve.push((key, items));
                    proof {
                        assert(ve@.map_values(vem) =~= pre0.push((k@, views(ve@.last().1@))));
                        if validated_entries(dv.skip(t + 1)) is Ok {
                            let rest = validated_entries(dv.skip(t + 1))->Ok_0;
                            assert(pre0 + (seq![(dv[t as int].0, items_of_value(
                                dv[t as int].1,
                            )->Ok_0)] + rest) =~= ve@.map_values(vem) + rest);
                        }
                    }
                },
                Err(e) => {
                    proof {
                        let d = items_of_value(dv[t as int].1)->Err_0;
                        assert(validated_entries(dv.skip(t as int)) == Result::<
                            Seq<(Seq<char>, Seq<Seq<char>>)>,
                            Seq<char>,
                        >::Err(d));
                        assert(validated_entries(dv) == Result::<
                            Seq<(Seq<char>, Seq<Seq<char>>)>,
                            Seq<char>,
                        >::Err(d));
                        assert(wl0.is_prefix_of(wl0));
                    }
                    return Err(e);
                },
            }
            t += 1;
        }
        proof {
            assert(dv.skip(doc@.len() as int) =~= Seq::<(Seq<char>, DocValueModel)>::empty());
            assert(ve@.map_values(vem) + Seq::<(Seq<char>, Seq<Seq<char>>)>::empty() =~= ve@.map_values(
                vem,
            ));
            assert(validated_entries(dv) == Result::<_, Seq<char>>::Ok(ve@.map_values(vem)));
        }
        // Apply the validated entries in order.
        let ghost vev = ve@.map_values(vem);
        let mut t: usize = 0;
        proof {
            assert(vev.skip(0) =~= vev);
        }
        while t < ve.len()
            invariant
                vev == ve@.map_values(vem),
                vem == (|p: (String, Vec<String>)| (p.0@, views(p.1@))),
                vev.len() == ve@.len(),
                t <= ve@.len(),
                self.wf(),
                self.cursor == old(self).cursor,
                forall|j: int| 0 <= j < managers@.len() ==> (#[trigger] managers@[j])@.wf(),
                wl0.is_prefix_of(views(self.entries@)),
                applied_entries(wl0, ms0, vev) == applied_entries(
                    views(self.entries@),
                    models(managers@),
                    vev.skip(t as int),
                ),
            decreases ve@.len() - t,
        {
            let ghost cur_wl = views(self.entries@);
            let ghost cur_ms = models(managers@);
            proof {
                assert(vev.skip(t as int)[0] == vev[t as int]);
                assert(vev.skip(t as int).skip(1) =~= vev.skip(t + 1));
                assert(vev[t as int] == (ve@[t as int].0@, views(ve@[t as int].1@)));
            }
            let (k, items) = &ve[t];
            if str_eq(k.as_str(), "imports") {
                self.enqueue_all(items);
                proof {
                    lemma_enqueued_all_distinct(cur_wl, views(items@));
                    assert(wl0.is_prefix_of(views(self.entries@))) by {
                        assert(wl0 =~= cur_wl.take(wl0.len() as int));
                        assert(cur_wl =~= views(self.entries@).take(cur_wl.len() as int));
                        assert(wl0 =~= views(self.entries@).take(wl0.len() as int));
                    }
                }
            } else {
                declare_items(managers, k, items);
            }
            t += 1;
        }
        proof {
            assert(vev.skip(ve@.len() as int) =~= Seq::<(Seq<char>, Seq<Seq<char>>)>::empty());
        }
        Ok(())
    }
}

} // verus!
