use wood_cutter::import::parse_import;
use wood_cutter::shape_list::{default_shape_name, ShapeList};

fn row(n: &str, w: &str, h: &str) -> (String, String, String) {
    (n.to_string(), w.to_string(), h.to_string())
}

#[test]
fn import_reads_names_and_sizes() {
    let rows = parse_import("门板A,800,2000\n# c\n\n 600 ; 2200 \nx\n1,2,3,4\n,,5,,6");
    assert_eq!(rows, vec![row("门板A", "800", "2000"), row("", "600", "2200"), row("1", "2", "3"), row("", "5", "6")]);
}

#[test]
fn import_handles_line_endings_tabs_and_spaces() {
    assert_eq!(parse_import("a,1,2\r\nb,3,4\r\n"), vec![row("a", "1", "2"), row("b", "3", "4")]);
    assert_eq!(parse_import("a\t1\t2"), vec![row("a", "1", "2")]);
    assert_eq!(parse_import("  # x,1,2\n\u{3000}y , 7 ,8\u{a0}"), vec![row("y", "7", "8")]);
    assert_eq!(parse_import(""), vec![]);
    assert_eq!(parse_import("\n\n"), vec![]);
    assert_eq!(parse_import("a b,1"), vec![row("", "a b", "1")]);
}

#[test]
fn default_names_follow_the_id() {
    assert_eq!(default_shape_name(0), "图形0");
    assert_eq!(default_shape_name(7), "图形7");
    assert_eq!(default_shape_name(10), "图形10");
    assert_eq!(default_shape_name(12345), "图形12345");
}

#[test]
fn add_shape_gives_fresh_ids_and_default_names() {
    let mut l = ShapeList::new();
    assert!(l.shapes.is_empty());
    assert_eq!(l.next_id, 1);
    l.add_shape("", "1", "2");
    l.add_shape("柜门", "3", "4");
    assert_eq!(l.next_id, 3);
    assert_eq!((l.shapes[0].id, l.shapes[0].name.as_str(), l.shapes[0].w.as_str(), l.shapes[0].h.as_str()), (1, "图形1", "1", "2"));
    assert_eq!((l.shapes[1].id, l.shapes[1].name.as_str()), (2, "柜门"));
}

#[test]
fn load_example_fills_the_cabinet() {
    let mut l = ShapeList::new();
    l.add_shape("old", "1", "1");
    let (bw, bh) = l.load_example();
    assert_eq!((bw, bh), ("2440", "1220"));
    assert_eq!(l.next_id, 13);
    assert_eq!(l.shapes.len(), 12);
    let ids: Vec<usize> = l.shapes.iter().map(|s| s.id).collect();
    assert_eq!(ids, (1..13).collect::<Vec<usize>>());
    assert_eq!((l.shapes[0].name.as_str(), l.shapes[0].w.as_str(), l.shapes[0].h.as_str()), ("门板A", "800", "2000"));
    assert_eq!((l.shapes[11].name.as_str(), l.shapes[11].w.as_str(), l.shapes[11].h.as_str()), ("背板", "980", "2180"));
    assert_eq!(l.shapes[6].name, "抽屉面A");
}

#[test]
fn import_text_adds_rows() {
    let mut l = ShapeList::new();
    l.load_example();
    let n = l.import_text("a,1,2\n5,6\nbad\n");
    assert_eq!(n, 2);
    assert_eq!(l.next_id, 15);
    assert_eq!(l.shapes.len(), 14);
    assert_eq!((l.shapes[12].id, l.shapes[12].name.as_str()), (13, "a"));
    assert_eq!((l.shapes[13].id, l.shapes[13].name.as_str(), l.shapes[13].w.as_str()), (14, "图形14", "5"));
    let rows = vec![row("", "1", "1")];
    assert_eq!(l.add_rows(&rows), 1);
    assert_eq!(l.shapes[14].name, "图形15");
}

#[test]
fn ids_stay_fresh_and_distinct() {
    let mut l = ShapeList::new();
    l.load_example();
    l.import_text("x,1,2\n3,4\n");
    l.add_shape("", "5", "6");
    let mut ids: Vec<usize> = l.shapes.iter().map(|s| s.id).collect();
    assert!(ids.iter().all(|&i| i < l.next_id));
    ids.sort();
    ids.dedup();
    assert_eq!(ids.len(), l.shapes.len());
}

#[test]
fn rows_are_removed_moved_and_cleared() {
    let mut l = ShapeList::new();
    l.add_shape("a", "1", "1");
    l.add_shape("b", "2", "2");
    l.add_shape("c", "3", "3");
    l.move_up(2);
    let names: Vec<&str> = l.shapes.iter().map(|e| e.name.as_str()).collect();
    assert_eq!(names, vec!["a", "c", "b"]);
    l.move_up(0);
    l.move_down(2);
    let names: Vec<&str> = l.shapes.iter().map(|e| e.name.as_str()).collect();
    assert_eq!(names, vec!["a", "c", "b"]);
    l.move_down(0);
    let ids: Vec<usize> = l.shapes.iter().map(|e| e.id).collect();
    assert_eq!(ids, vec![3, 1, 2]);
    l.remove_at(1);
    l.remove_at(9);
    let ids: Vec<usize> = l.shapes.iter().map(|e| e.id).collect();
    assert_eq!(ids, vec![3, 2]);
    l.clear();
    assert!(l.shapes.is_empty());
    l.add_shape("", "5", "5");
    assert_eq!(l.shapes[0].id, 4);
}
