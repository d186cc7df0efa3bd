use code_chunks::code_chunk::CodeChunk;
use code_chunks::code_chunker;
use code_chunks::file_chunks::file_to_chunks;
use code_chunks::load_chunks::CodeChunksJson;

fn strings(lines: &[&str]) -> Vec<String> {
    lines.iter().map(|s| s.to_string()).collect()
}

fn chunk(filename: &str, id: usize, start_line: usize, documented: bool) -> CodeChunk {
    CodeChunk::new(id, filename, start_line, start_line + 1, strings(&["x"]), documented)
}

#[test]
fn new_chunk_holds_its_fields() {
    let c = CodeChunk::new(3, "src/a.rs", 0, 2, strings(&["fn a() {", "}"]), true);
    assert_eq!(c.id, 3);
    assert_eq!(c.filename, "src/a.rs");
    assert_eq!(c.start_line, 0);
    assert_eq!(c.end_line, 2);
    assert_eq!(c.chunks, strings(&["fn a() {", "}"]));
    assert!(c.documented);
    assert!(c.is_documented());
}

#[test]
fn chunk_is_shown_with_header_and_lines() {
    let c = CodeChunk::new(3, "src/a.rs", 0, 2, strings(&["fn a() {", "}"]), false);
    assert_eq!(
        c.display_string(),
        "ID: 3\nFile: src/a.rs\nDocumented: false\nStart Line: 0\nEnd Line: 2\nChunks:\nfn a() {\n}\n"
    );
}

#[test]
fn chunk_numbers_are_shown_in_decimal() {
    let c = CodeChunk::new(1234567, "b.rs", 10, 1000, vec![], true);
    assert_eq!(
        c.display_string(),
        "ID: 1234567\nFile: b.rs\nDocumented: true\nStart Line: 10\nEnd Line: 1000\nChunks:\n"
    );
}

#[test]
fn file_is_cut_before_each_matched_line() {
    let file = strings(&["a", "b", "c", "d", "e"]);
    let chunks = file_to_chunks("dir/f.rs", "f.rs", vec![0, 3, 3, 10], &file);
    assert_eq!(chunks.len(), 2);
    assert_eq!(chunks[0].id, 1);
    assert_eq!(chunks[0].filename, "dir/f.rs");
    assert_eq!((chunks[0].start_line, chunks[0].end_line), (0, 2));
    assert_eq!(chunks[0].chunks, strings(&["a", "b"]));
    assert!(!chunks[0].documented);
    assert_eq!(chunks[1].id, 3);
    assert_eq!((chunks[1].start_line, chunks[1].end_line), (2, 5));
    assert_eq!(chunks[1].chunks, strings(&["c", "d", "e"]));
}

#[test]
fn file_chunks_follow_each_other() {
    let file: Vec<String> = (0..40).map(|i| format!("line {}", i)).collect();
    let chunks = file_to_chunks("g.rs", "g.rs", vec![0, 5, 5, 17, 30, 100], &file);
    assert_eq!(chunks[0].start_line, 0);
    for t in 0..chunks.len() - 1 {
        assert_eq!(chunks[t].end_line, chunks[t + 1].start_line);
    }
    assert_eq!(chunks.last().unwrap().end_line, 40);
    let all: Vec<String> = chunks.iter().flat_map(|c| c.chunks.clone()).collect();
    assert_eq!(all, file);
}

#[test]
fn no_cut_lines_give_no_chunks() {
    let file = strings(&["a"]);
    assert!(file_to_chunks("h.rs", "h.rs", vec![], &file).is_empty());
}

#[test]
fn text_chunk_holds_joined_text() {
    let c = code_chunker::CodeChunk::new("x.rs", 1, 4, "a\nb");
    assert_eq!(c.filename, "x.rs");
    assert_eq!((c.start_line, c.end_line), (1, 4));
    assert_eq!(c.chunk, "a\nb");
}

#[test]
fn text_chunks_are_cut_after_each_filtered_line() {
    let file = strings(&["l0", "l1", "l2", "l3"]);
    let chunks = code_chunker::process_lines("p.rs", "p.rs", vec![2, 1], &file);
    assert_eq!(chunks.len(), 2);
    assert_eq!((chunks[0].start_line, chunks[0].end_line), (0, 2));
    assert_eq!(chunks[0].chunk, "l0\nl1");
    assert_eq!((chunks[1].start_line, chunks[1].end_line), (2, 3));
    assert_eq!(chunks[1].chunk, "l2");
}

#[test]
fn chunks_are_sorted_by_file_then_number() {
    let json = CodeChunksJson::from_chunks(vec![
        chunk("b.rs", 1, 0, false),
        chunk("a.rs", 2, 1, false),
        chunk("a.rs", 1, 2, false),
        chunk("b.rs", 0, 3, false),
        chunk("a.rs", 1, 4, false),
    ]);
    let keys: Vec<(String, usize, usize)> = json
        .get_chunks()
        .iter()
        .map(|c| (c.filename.clone(), c.id, c.start_line))
        .collect();
    assert_eq!(
        keys,
        vec![
            ("a.rs".to_string(), 1, 2),
            ("a.rs".to_string(), 1, 4),
            ("a.rs".to_string(), 2, 1),
            ("b.rs".to_string(), 0, 3),
            ("b.rs".to_string(), 1, 0),
        ]
    );
}

#[test]
fn file_names_compare_bytewise() {
    let mut json = CodeChunksJson::from_chunks(vec![
        chunk("ab", 0, 0, false),
        chunk("a", 5, 1, false),
        chunk("B", 9, 2, false),
        chunk("é", 0, 3, false),
        chunk("z", 0, 4, false),
    ]);
    json.sort();
    let names: Vec<String> = json.get_chunks().iter().map(|c| c.filename.clone()).collect();
    assert_eq!(names, vec!["B", "a", "ab", "z", "é"]);
}

#[test]
fn sorting_sorted_chunks_changes_nothing() {
    let mut json = CodeChunksJson::from_chunks(vec![chunk("b", 0, 0, false), chunk("a", 0, 1, false)]);
    let before: Vec<usize> = json.get_chunks().iter().map(|c| c.start_line).collect();
    json.sort();
    let after: Vec<usize> = json.get_chunks().iter().map(|c| c.start_line).collect();
    assert_eq!(before, vec![1, 0]);
    assert_eq!(before, after);
}

#[test]
fn summary_counts_chunks_per_file() {
    let chunks = vec![
        chunk("b", 0, 0, false),
        chunk("a", 0, 1, false),
        chunk("b", 1, 2, false),
        chunk("c", 0, 3, false),
        chunk("a", 1, 4, false),
        chunk("b", 2, 5, false),
    ];
    let summary = CodeChunksJson::summarize_with_chunk_count(&chunks);
    assert_eq!(
        summary,
        vec![("b".to_string(), 3), ("a".to_string(), 2), ("c".to_string(), 1)]
    );
    assert!(CodeChunksJson::summarize_with_chunk_count(&[]).is_empty());
}

#[test]
fn stats_count_documented_chunks() {
    let json = CodeChunksJson::from_chunks(vec![
        chunk("b", 0, 0, true),
        chunk("a", 0, 1, false),
        chunk("b", 1, 2, false),
        chunk("a", 1, 3, true),
        chunk("b", 2, 4, true),
    ]);
    let stats = json.file_stats();
    assert_eq!(stats.len(), 2);
    assert_eq!(stats[0].filename, "a");
    assert_eq!((stats[0].total, stats[0].undocumented, stats[0].documented), (2, 1, 1));
    assert_eq!(stats[1].filename, "b");
    assert_eq!((stats[1].total, stats[1].undocumented, stats[1].documented), (3, 1, 2));
}

#[test]
fn per_file_counts_add_up_to_all_chunks() {
    let chunks = vec![
        chunk("x", 0, 0, false),
        chunk("y", 0, 1, true),
        chunk("x", 1, 2, true),
        chunk("z", 0, 3, false),
        chunk("x", 2, 4, false),
    ];
    let summary = CodeChunksJson::summarize_with_chunk_count(&chunks);
    let total: usize = summary.iter().map(|(_, count)| *count).sum();
    assert_eq!(total, chunks.len());
    let json = CodeChunksJson::from_chunks(chunks);
    for stats in json.file_stats() {
        assert_eq!(stats.total, stats.documented + stats.undocumented);
    }
}

#[test]
fn per_file_counts_do_not_depend_on_order() {
    let a = vec![chunk("x", 0, 0, true), chunk("y", 0, 1, false), chunk("x", 1, 2, false)];
    let b = vec![chunk("y", 0, 1, false), chunk("x", 1, 2, false), chunk("x", 0, 0, true)];
    let mut sa = CodeChunksJson::summarize_with_chunk_count(&a);
    let mut sb = CodeChunksJson::summarize_with_chunk_count(&b);
    sa.sort();
    sb.sort();
    assert_eq!(sa, sb);
    assert_eq!(sa, vec![("x".to_string(), 2), ("y".to_string(), 1)]);
}
