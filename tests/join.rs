use std::collections::HashMap;

use frism::join::Joiner;
use frism::split::frism_split_bytes;

fn run_join(basename: &str, dir: &HashMap<String, Vec<u8>>) -> (Vec<u8>, Vec<String>) {
    let mut j = Joiner::new(basename);
    let mut out = Vec::new();
    let mut probed = Vec::new();
    while let Some(name) = j.next_part() {
        probed.push(name.clone());
        match dir.get(&name) {
            Some(contents) => {
                j.part_found(contents);
                out.extend_from_slice(contents);
            }
            None => j.part_missing(),
        }
    }
    assert!(j.finished());
    (out, probed)
}

#[test]
fn join_stops_at_first_gap() {
    let mut dir = HashMap::new();
    dir.insert("d/f.0".to_string(), vec![1, 2]);
    dir.insert("d/f.1".to_string(), vec![3]);
    dir.insert("d/f.3".to_string(), vec![9, 9, 9]);
    dir.insert("d/f.4".to_string(), vec![8]);
    let (out, probed) = run_join("d/f", &dir);
    assert_eq!(out, vec![1, 2, 3]);
    assert_eq!(probed.len(), 3);
    assert_eq!(probed, vec!["d/f.0", "d/f.1", "d/f.2"]);
}

#[test]
fn join_with_no_parts_writes_nothing() {
    let mut dir = HashMap::new();
    dir.insert("other.0".to_string(), vec![1]);
    dir.insert("f.1".to_string(), vec![2]);
    let (out, probed) = run_join("f", &dir);
    assert!(out.is_empty());
    assert_eq!(probed, vec!["f.0"]);
}

#[test]
fn missing_after_end_changes_nothing() {
    let mut j = Joiner::new("f");
    assert_eq!(j.parts_found(), 0);
    j.part_found(&vec![5, 6]);
    assert_eq!(j.parts_found(), 1);
    assert_eq!(j.next_part(), Some("f.1".to_string()));
    j.part_missing();
    assert!(j.finished());
    assert_eq!(j.parts_found(), 1);
    assert!(j.next_part().is_none());
    j.part_missing();
    assert!(j.next_part().is_none());
}

#[test]
fn split_then_join_round_trip() {
    let data: Vec<u8> = (0..=255u8).chain(0..=100u8).collect();
    for c in [1usize, 2, 7, 64, 356, 357, 1000] {
        let parts = frism_split_bytes(&data, "x.bin", c);
        let mut dir: HashMap<String, Vec<u8>> = HashMap::new();
        for p in parts {
            dir.insert(p.name, p.data);
        }
        dir.insert(format!("x.bin.{}", 5000), vec![42]);
        let (out, _) = run_join("x.bin", &dir);
        assert_eq!(out, data);
    }
}
