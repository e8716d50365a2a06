use moss::output::{flag_column, name_width, task_entries, TaskEntry};
use moss::parse;

#[test]
fn entries_list_flag_labels() {
    let src = "task build:\n  desc = \"Build it\"\n  cargo build\ntask dev parallel watch=\"src/*\" ready=\"up\" deps=[build] args=[x]:\n  run {{x}}\n";
    let mf = parse(src).unwrap();
    let entries = task_entries(&mf);
    assert_eq!(entries.len(), 2);
    assert_eq!(entries[0].name, "build");
    assert_eq!(entries[0].description, Some("Build it"));
    assert!(entries[0].flags.is_empty());
    assert_eq!(entries[1].flags, vec!["par", "wat", "rdy", "dep", "arg"]);
    let one = TaskEntry::from_task(&mf.tasks[1]);
    assert_eq!(one.name, "dev");
    assert_eq!(one.description, None);
}

#[test]
fn name_width_is_longest_name() {
    let mf = parse("task a:\n  x\ntask longer:\n  x\ntask mid:\n  x\n").unwrap();
    let entries = task_entries(&mf);
    assert_eq!(name_width(&entries), 6);
    assert_eq!(name_width(&[]), 0);
}

#[test]
fn flag_column_pads_labels() {
    assert_eq!(flag_column(&vec!["par", "dep"]), "par dep");
    assert_eq!(flag_column(&vec!["x"]), "x  ");
    assert_eq!(flag_column(&vec![]), "");
}
