use metapkg::error::ConfigError;
use metapkg::manager::Manager;
use metapkg::reconcile::{compute_add_remove, parse_list_output};
use metapkg::registry::{check_requested, order_managers, parse_order_lines, rank_of};
use metapkg::resolve::{root_document_id, Worklist};
use metapkg::template::{add_remove_items, fmt_run_command, upgrade};

fn mgr(name: &str) -> Manager {
    Manager {
        name: name.to_string(),
        add: "add <items>".to_string(),
        remove: "remove <items>".to_string(),
        list: "list".to_string(),
        upgrade: None,
        remove_then_add: false,
        items_separator: None,
        items: Vec::new(),
        items_to_add: Vec::new(),
        items_to_remove: Vec::new(),
    }
}

fn strs(xs: &[&str]) -> Vec<String> {
    xs.iter().map(|s| s.to_string()).collect()
}

#[test]
fn reconcile_splits_by_set_difference() {
    // Desired {b, c} against installed {a, b}: add c, remove a.
    let mut m = mgr("foo");
    m.items = strs(&["b", "c"]);
    compute_add_remove(&mut m, "a\nb\n");
    assert_eq!(m.items_to_add, strs(&["c"]));
    assert_eq!(m.items_to_remove, strs(&["a"]));
    // The desired set is untouched.
    assert_eq!(m.items, strs(&["b", "c"]));
}

#[test]
fn reconcile_disjoint_and_stable() {
    let mut m = mgr("foo");
    m.items = strs(&["x", "y"]);
    compute_add_remove(&mut m, "x\ny\n");
    assert!(m.items_to_add.is_empty());
    assert!(m.items_to_remove.is_empty());
    // Re-running against the same output changes nothing.
    compute_add_remove(&mut m, "x\ny\n");
    assert!(m.items_to_add.is_empty());
    assert!(m.items_to_remove.is_empty());
}

#[test]
fn list_output_drops_empty_lines_and_duplicates() {
    assert_eq!(parse_list_output("a\n\nb\n"), strs(&["a", "b"]));
    assert_eq!(parse_list_output("a\na\nb\na\n"), strs(&["a", "b"]));
    assert_eq!(parse_list_output(""), Vec::<String>::new());
    assert_eq!(parse_list_output("\n\n"), Vec::<String>::new());
}

#[test]
fn import_cycle_enqueues_each_document_once() {
    let mut wl = Worklist::new("a".to_string());
    let mut managers = vec![mgr("foo")];
    let next = wl.next_id().unwrap();
    assert_eq!(next, "a");
    // Document a imports b; document b imports a back.
    wl.apply_document(&mut managers, "imports = [\"b\"]").unwrap();
    assert_eq!(wl.entries, strs(&["a", "b"]));
    let next = wl.next_id().unwrap();
    assert_eq!(next, "b");
    wl.apply_document(&mut managers, "imports = [\"a\"]").unwrap();
    // The cycle terminates: nothing new was enqueued.
    assert_eq!(wl.entries, strs(&["a", "b"]));
    assert!(wl.next_id().is_none());
}

#[test]
fn reimporting_twice_processes_items_once() {
    let mut wl = Worklist::new("root".to_string());
    let mut managers = vec![mgr("foo")];
    wl.next_id().unwrap();
    // The same document is imported twice in one list.
    wl.apply_document(&mut managers, "imports = [\"x\", \"x\"]\nfoo = \"p\"").unwrap();
    assert_eq!(wl.entries, strs(&["root", "x"]));
    assert_eq!(managers[0].items, strs(&["p"]));
    // Declaring the same item again is a no-op.
    wl.apply_document(&mut managers, "foo = \"p\"").unwrap();
    assert_eq!(managers[0].items, strs(&["p"]));
}

#[test]
fn resolution_order_is_deterministic() {
    let texts = ["imports = [\"b\", \"c\"]\nfoo = [\"1\"]", "foo = \"2\"", "imports = [\"b\"]"];
    let run = || {
        let mut wl = Worklist::new("a".to_string());
        let mut managers = vec![mgr("foo")];
        let mut order: Vec<String> = Vec::new();
        let mut i: usize = 0;
        while let Some(id) = wl.next_id() {
            order.push(id);
            wl.apply_document(&mut managers, texts[i]).unwrap();
            i += 1;
        }
        (order, managers[0].items.clone(), wl.entries.clone())
    };
    assert_eq!(run(), run());
    let (order, items, entries) = run();
    assert_eq!(order, strs(&["a", "b", "c"]));
    assert_eq!(entries, strs(&["a", "b", "c"]));
    assert_eq!(items, strs(&["1", "2"]));
}

#[test]
fn unknown_manager_items_are_discarded() {
    let mut wl = Worklist::new("a".to_string());
    let mut managers = vec![mgr("foo")];
    wl.next_id().unwrap();
    wl.apply_document(&mut managers, "bar = [\"x\"]").unwrap();
    assert!(managers[0].items.is_empty());
}

#[test]
fn non_string_item_is_fatal() {
    let mut wl = Worklist::new("a".to_string());
    let mut managers = vec![mgr("foo")];
    let err = wl.apply_document(&mut managers, "foo = [\"ok\", 3]").unwrap_err();
    assert!(matches!(err, ConfigError::NonStringItem(_)));
    // Nothing was merged.
    assert!(managers[0].items.is_empty());
    assert_eq!(wl.entries, strs(&["a"]));
}

#[test]
fn nested_array_element_is_fatal() {
    let mut wl = Worklist::new("a".to_string());
    let mut managers = vec![mgr("foo")];
    let err = wl.apply_document(&mut managers, "foo = [[\"x\"]]").unwrap_err();
    assert!(matches!(err, ConfigError::NonStringItem(_)));
}

#[test]
fn scalar_of_other_kind_declares_nothing() {
    let mut wl = Worklist::new("a".to_string());
    let mut managers = vec![mgr("foo")];
    // Neither a string nor an array: the entry yields no items and no error.
    wl.apply_document(&mut managers, "foo = 1.5\nimports = 3").unwrap();
    assert!(managers[0].items.is_empty());
    assert_eq!(wl.entries, strs(&["a"]));
}

#[test]
fn unparsable_document_is_fatal() {
    let mut wl = Worklist::new("a".to_string());
    let mut managers = vec![mgr("foo")];
    let err = wl.apply_document(&mut managers, "= nonsense").unwrap_err();
    assert!(matches!(err, ConfigError::ParseFailed(_)));
}

#[test]
fn declaration_schema_accepted() {
    let doc = metapkg::document::parse_toml_document(
        "add = \"pac add <items>\"\nremove = \"pac del <items>\"\nlist = \"pac ls\"\nupgrade = \"pac up\"\nremove_then_add = true\nitems_separator = \",\"",
    )
    .unwrap();
    let m = Manager::from_document("pac".to_string(), &doc).unwrap();
    assert_eq!(m.name, "pac");
    assert_eq!(m.add, "pac add <items>");
    assert_eq!(m.remove, "pac del <items>");
    assert_eq!(m.list, "pac ls");
    assert_eq!(m.upgrade, Some("pac up".to_string()));
    assert!(m.remove_then_add);
    assert_eq!(m.items_separator, Some(",".to_string()));
    assert!(m.items.is_empty());
}

#[test]
fn declaration_schema_defaults() {
    let doc = metapkg::document::parse_toml_document(
        "add = \"a <item>\"\nremove = \"r <item>\"\nlist = \"l\"",
    )
    .unwrap();
    let m = Manager::from_document("x".to_string(), &doc).unwrap();
    assert_eq!(m.upgrade, None);
    assert!(!m.remove_then_add);
    assert_eq!(m.items_separator, None);
}

#[test]
fn declaration_schema_errors() {
    let parse = |t: &str| metapkg::document::parse_toml_document(t).unwrap();
    let doc = parse("add = \"a\"\nremove = \"r\"\nlist = \"l\"\nbogus = \"z\"");
    let err = Manager::from_document("x".to_string(), &doc).unwrap_err();
    assert_eq!(err, ConfigError::UnknownField("bogus".to_string()));

    let doc = parse("remove = \"r\"\nlist = \"l\"");
    let err = Manager::from_document("x".to_string(), &doc).unwrap_err();
    assert_eq!(err, ConfigError::MissingField("add".to_string()));

    let doc = parse("add = \"a\"\nlist = \"l\"");
    let err = Manager::from_document("x".to_string(), &doc).unwrap_err();
    assert_eq!(err, ConfigError::MissingField("remove".to_string()));

    let doc = parse("add = \"a\"\nremove = \"r\"");
    let err = Manager::from_document("x".to_string(), &doc).unwrap_err();
    assert_eq!(err, ConfigError::MissingField("list".to_string()));

    let doc = parse("add = true\nremove = \"r\"\nlist = \"l\"");
    let err = Manager::from_document("x".to_string(), &doc).unwrap_err();
    assert_eq!(err, ConfigError::WrongFieldType("add".to_string()));

    let doc = parse("add = \"a\"\nremove = \"r\"\nlist = \"l\"\nremove_then_add = \"yes\"");
    let err = Manager::from_document("x".to_string(), &doc).unwrap_err();
    assert_eq!(err, ConfigError::WrongFieldType("remove_then_add".to_string()));
}

#[test]
fn manager_ordering_is_stable_with_unordered_last() {
    // Ordering file [B, A] over discovered {A, B, C}: B, A, then C last.
    let order = strs(&["B", "A"]);
    let managers = vec![mgr("A"), mgr("B"), mgr("C")];
    let ordered = order_managers(managers, &order);
    let names: Vec<&str> = ordered.iter().map(|m| m.name.as_str()).collect();
    assert_eq!(names, vec!["B", "A", "C"]);
}

#[test]
fn unordered_managers_keep_discovery_order() {
    let order: Vec<String> = Vec::new();
    let managers = vec![mgr("z"), mgr("m"), mgr("a")];
    let ordered = order_managers(managers, &order);
    let names: Vec<&str> = ordered.iter().map(|m| m.name.as_str()).collect();
    assert_eq!(names, vec!["z", "m", "a"]);
}

#[test]
fn rank_is_first_occurrence_or_length() {
    let order = strs(&["b", "a", "b"]);
    assert_eq!(rank_of(&order, &"b".to_string()), 0);
    assert_eq!(rank_of(&order, &"a".to_string()), 1);
    assert_eq!(rank_of(&order, &"zzz".to_string()), 3);
}

#[test]
fn order_file_lines() {
    assert_eq!(parse_order_lines("b\na\n"), strs(&["b", "a"]));
    assert_eq!(parse_order_lines("b\r\na"), strs(&["b", "a"]));
    assert_eq!(parse_order_lines(""), Vec::<String>::new());
    assert_eq!(parse_order_lines("only"), strs(&["only"]));
}

#[test]
fn requested_managers_must_exist() {
    let managers = vec![mgr("A"), mgr("B")];
    assert!(check_requested(&managers, &strs(&["A", "B"])).is_ok());
    assert!(check_requested(&managers, &Vec::new()).is_ok());
    let err = check_requested(&managers, &strs(&["A", "X", "B"])).unwrap_err();
    assert_eq!(err, ConfigError::ManagerNotFound("X".to_string()));
}

#[test]
fn template_per_item_expansion() {
    let cmds = fmt_run_command("install <item>", &strs(&["x", "y"]), " ").unwrap();
    assert_eq!(cmds, strs(&["install x", "install y"]));
}

#[test]
fn template_joined_expansion() {
    let cmds = fmt_run_command("install <items>", &strs(&["x", "y"]), ",").unwrap();
    assert_eq!(cmds, strs(&["install x,y"]));
    let cmds = fmt_run_command("install <items>", &strs(&["x", "y"]), " ").unwrap();
    assert_eq!(cmds, strs(&["install x y"]));
}

#[test]
fn template_replaces_every_occurrence() {
    let cmds = fmt_run_command("p <item> q <item>", &strs(&["a"]), " ").unwrap();
    assert_eq!(cmds, strs(&["p a q a"]));
}

#[test]
fn template_without_placeholder_is_fatal() {
    let err = fmt_run_command("install stuff", &strs(&["x"]), " ").unwrap_err();
    assert_eq!(err, ConfigError::NoPlaceholder);
}

#[test]
fn operation_order_add_first_by_default() {
    let mut m = mgr("foo");
    m.items_to_add = strs(&["n"]);
    m.items_to_remove = strs(&["o"]);
    let cmds = add_remove_items(&vec![m]).unwrap();
    assert_eq!(cmds, strs(&["add n", "remove o"]));
}

#[test]
fn operation_order_reversed_by_flag() {
    let mut m = mgr("foo");
    m.remove_then_add = true;
    m.items_to_add = strs(&["n"]);
    m.items_to_remove = strs(&["o"]);
    let cmds = add_remove_items(&vec![m]).unwrap();
    assert_eq!(cmds, strs(&["remove o", "add n"]));
}

#[test]
fn empty_operations_are_skipped() {
    let mut m = mgr("foo");
    // An invalid template is irrelevant while its item set is empty.
    m.add = "broken".to_string();
    m.items_to_remove = strs(&["o"]);
    let cmds = add_remove_items(&vec![m]).unwrap();
    assert_eq!(cmds, strs(&["remove o"]));

    let m2 = mgr("bar");
    let cmds = add_remove_items(&vec![m2]).unwrap();
    assert!(cmds.is_empty());
}

#[test]
fn plan_spans_managers_in_order() {
    let mut a = mgr("a");
    a.items_to_add = strs(&["1"]);
    let mut b = mgr("b");
    b.add = "B <item>".to_string();
    b.items_to_add = strs(&["2", "3"]);
    let cmds = add_remove_items(&vec![a, b]).unwrap();
    assert_eq!(cmds, strs(&["add 1", "B 2", "B 3"]));
}

#[test]
fn invalid_template_with_items_is_fatal() {
    let mut m = mgr("foo");
    m.add = "no placeholder".to_string();
    m.items_to_add = strs(&["x"]);
    let err = add_remove_items(&vec![m]).unwrap_err();
    assert_eq!(err, ConfigError::NoPlaceholder);
}

#[test]
fn upgrade_plans_only_configured_commands() {
    let mut a = mgr("a");
    a.upgrade = Some("a up".to_string());
    let b = mgr("b");
    let mut c = mgr("c");
    c.upgrade = Some("c up".to_string());
    let cmds = upgrade(&vec![a, b, c]);
    assert_eq!(cmds, strs(&["a up", "c up"]));
}

#[test]
fn root_document_id_trims_hostname() {
    assert_eq!(root_document_id("myhost\n"), "../machines/myhost");
    assert_eq!(root_document_id("plain"), "../machines/plain");
    assert_eq!(root_document_id("padded \t\r\n"), "../machines/padded");
}

#[test]
fn end_to_end_scenario() {
    // Manager foo whose list prints a and b, desired {b, c}:
    // c is added, a is removed, and the plan reflects exactly that.
    let mut foo = mgr("foo");
    let mut wl = Worklist::new("machine".to_string());
    let mut managers = vec![foo];
    wl.next_id().unwrap();
    wl.apply_document(&mut managers, "foo = [\"b\", \"c\"]").unwrap();
    compute_add_remove(&mut managers[0], "a\nb\n");
    assert_eq!(managers[0].items_to_add, strs(&["c"]));
    assert_eq!(managers[0].items_to_remove, strs(&["a"]));
    let cmds = add_remove_items(&managers).unwrap();
    assert_eq!(cmds, strs(&["add c", "remove a"]));
    foo = managers.pop().unwrap();
    assert_eq!(foo.items, strs(&["b", "c"]));
}
