use frism::split::{frism_split_bytes, progress_hundredths, FileSplitter, Part};

fn bytes(n: usize) -> Vec<u8> {
    (0..n).map(|i| (i * 7 % 251) as u8).collect()
}

fn concat(parts: &[Part]) -> Vec<u8> {
    let mut out = Vec::new();
    for p in parts {
        out.extend_from_slice(&p.data);
    }
    out
}

#[test]
fn uneven_split() {
    let data = bytes(10);
    let parts = frism_split_bytes(&data, "f", 3);
    assert_eq!(parts.len(), 4);
    let sizes: Vec<usize> = parts.iter().map(|p| p.data.len()).collect();
    assert_eq!(sizes, vec![3, 3, 3, 1]);
    let names: Vec<&str> = parts.iter().map(|p| p.name.as_str()).collect();
    assert_eq!(names, vec!["f.0", "f.1", "f.2", "f.3"]);
    assert_eq!(parts[3].data, vec![data[9]]);
}

#[test]
fn even_split_has_full_last_part() {
    let data = bytes(9);
    let parts = frism_split_bytes(&data, "f", 3);
    assert_eq!(parts.len(), 3);
    assert!(parts.iter().all(|p| p.data.len() == 3));
}

#[test]
fn empty_source_has_no_parts() {
    assert!(frism_split_bytes(&vec![], "f", 4).is_empty());
}

#[test]
fn chunk_larger_than_source() {
    let data = bytes(5);
    let parts = frism_split_bytes(&data, "out/x.bin", 100);
    assert_eq!(parts.len(), 1);
    assert_eq!(parts[0].name, "out/x.bin.0");
    assert_eq!(parts[0].data, data);
}

#[test]
fn chunk_of_one_byte() {
    let data = bytes(12);
    let parts = frism_split_bytes(&data, "b", 1);
    assert_eq!(parts.len(), 12);
    assert_eq!(parts[11].name, "b.11");
    assert_eq!(concat(&parts), data);
}

#[test]
fn buffer_round_trip() {
    for len in 0..40 {
        for c in 1..12 {
            let data = bytes(len);
            let parts = frism_split_bytes(&data, "r", c);
            assert_eq!(parts.len(), (len + c - 1) / c);
            for (i, p) in parts.iter().enumerate() {
                if i + 1 < parts.len() {
                    assert_eq!(p.data.len(), c);
                } else {
                    assert_eq!(p.data.len(), len - c * (parts.len() - 1));
                }
            }
            assert_eq!(concat(&parts), data);
        }
    }
}

fn run_file_splitter(data: &[u8], c: usize) -> Vec<Part> {
    let mut s = FileSplitter::new("src.bin", c, data.len());
    let mut out = Vec::new();
    for chunk in data.chunks(c) {
        if let Some(p) = s.on_read(chunk.to_vec()) {
            out.push(p);
        }
    }
    assert!(s.on_read(Vec::new()).is_none());
    assert!(s.finished());
    out
}

#[test]
fn file_splitter_matches_buffer_splitter() {
    let data = bytes(23);
    let a = run_file_splitter(&data, 5);
    let b = frism_split_bytes(&data, "src.bin", 5);
    assert_eq!(a.len(), 5);
    for (x, y) in a.iter().zip(b.iter()) {
        assert_eq!(x.name, y.name);
        assert_eq!(x.data, y.data);
    }
    assert_eq!(concat(&a), data);
}

#[test]
fn file_splitter_empty_source() {
    assert!(run_file_splitter(&[], 4).is_empty());
}

#[test]
fn file_splitter_stops_after_short_chunk() {
    let mut s = FileSplitter::new("f", 4, 6);
    let p = s.on_read(vec![1, 2, 3, 4]).unwrap();
    assert_eq!(p.name, "f.0");
    assert_eq!(s.progress(), Some(6666));
    let p = s.on_read(vec![5, 6]).unwrap();
    assert_eq!(p.name, "f.1");
    assert_eq!(p.data, vec![5, 6]);
    assert!(s.finished());
    assert_eq!(s.consumed(), 6);
    assert_eq!(s.progress(), Some(10000));
    assert!(s.on_read(vec![7]).is_none());
    assert_eq!(s.consumed(), 6);
}

#[test]
fn progress_values() {
    assert_eq!(progress_hundredths(1, 3), Some(3333));
    assert_eq!(progress_hundredths(3, 3), Some(10000));
    assert_eq!(progress_hundredths(0, 5), Some(0));
    assert_eq!(progress_hundredths(0, 0), None);
    assert_eq!(progress_hundredths(usize::MAX, 1), Some(usize::MAX as u128 * 10000));
}
