use yunzhi::memory::{
    load_project_memory_prompt, memory_entry_score, parse_memory_entries, usable_memory, parse_memory_entry_line, query_terms,
    rank_memory_entries, render_memory_entry, render_memory_prompt, search_memory_entries,
    MemoryEntry,
};

fn entry(id: &str, tags: &[&str], text: &str) -> MemoryEntry {
    MemoryEntry {
        id: id.to_string(),
        tags: tags.iter().map(|t| t.to_string()).collect(),
        text: text.to_string(),
    }
}

#[test]
fn parses_entry_with_tags() {
    let e = parse_memory_entry_line("  - [id:a1]   [tags: rust, ,cli ] Use cargo build  ").unwrap();
    assert_eq!(e, entry("a1", &["rust", "cli"], "Use cargo build"));
}

#[test]
fn parses_entry_without_tags() {
    let e = parse_memory_entry_line("- [id: x ] plain text").unwrap();
    assert_eq!(e, entry("x", &[], "plain text"));
}

#[test]
fn rejects_malformed_lines() {
    assert_eq!(parse_memory_entry_line("* [id:a] text"), None);
    assert_eq!(parse_memory_entry_line("- [id:a text"), None);
    assert_eq!(parse_memory_entry_line("- [id:] text"), None);
    assert_eq!(parse_memory_entry_line("- [id:a]   "), None);
    assert_eq!(parse_memory_entry_line("- [id:a] [tags:x text"), None);
    assert_eq!(parse_memory_entry_line("- [id:a] [tags:x]"), None);
    assert_eq!(parse_memory_entry_line(""), None);
}

#[test]
fn parses_file_line_by_line() {
    let content = "# Memory\r\n- [id:1] first\r\n\nnot an entry\n- [id:2] [tags:t] second\n";
    let entries = parse_memory_entries(content);
    assert_eq!(entries, vec![entry("1", &[], "first"), entry("2", &["t"], "second")]);
    assert!(parse_memory_entries("").is_empty());
}

#[test]
fn renders_entries() {
    assert_eq!(render_memory_entry(&entry("a", &[], " text ")), "- [id:a] text");
    assert_eq!(render_memory_entry(&entry("a", &["x", "y"], "text")), "- [id:a] [tags:x,y] text");
}

#[test]
fn rendered_entry_reads_back() {
    let e = entry("id-7", &["one", "two words"], "the text");
    assert_eq!(parse_memory_entry_line(&render_memory_entry(&e)), Some(e));
}

#[test]
fn prompt_without_entries_is_trimmed_content() {
    assert_eq!(render_memory_prompt("\n  free notes  \n"), "free notes");
}

#[test]
fn prompt_keeps_the_last_entries() {
    let mut content = String::new();
    for i in 0..42 {
        content.push_str(&format!("- [id:{}] note {}\n", i, i));
    }
    let prompt = render_memory_prompt(&content);
    let lines: Vec<&str> = prompt.lines().collect();
    assert_eq!(lines.len(), 41);
    assert_eq!(lines[0], "- [id:2] note 2");
    assert_eq!(lines[39], "- [id:41] note 41");
    assert_eq!(lines[40], "... 已省略 2 条较早记忆，可用 long_memory search 查询。");
    let shown = parse_memory_entries(&prompt);
    assert_eq!(shown.len(), 40);
    assert_eq!(shown[0], entry("2", &[], "note 2"));
}

#[test]
fn prompt_with_few_entries() {
    let prompt = render_memory_prompt("- [id:a]  x \n- [id:b] [tags:t] y");
    assert_eq!(prompt, "- [id:a] x\n- [id:b] [tags:t] y");
}

#[test]
fn splits_query_terms() {
    assert_eq!(query_terms("  Rust, CLI;;tools\tX "), vec!["rust", "cli", "tools", "x"]);
    assert!(query_terms(" ,; ").is_empty());
}

#[test]
fn scores_entries() {
    let e = entry("Rust", &["Rust-lang", "go"], "rust and RUST and rustrust");
    let terms = vec!["rust".to_string()];
    // 8 for the id, 4 for one tag, 4 occurrences in the text
    assert_eq!(memory_entry_score(&e, &terms), 16);
    let terms = vec!["rust".to_string(), "go".to_string()];
    assert_eq!(memory_entry_score(&e, &terms), 20);
    assert_eq!(memory_entry_score(&e, &[]), 0);
    assert_eq!(memory_entry_score(&entry("a", &[], "aaaa"), &["aa".to_string()]), 2);
}

#[test]
fn searches_best_first() {
    let entries = vec![
        entry("a", &[], "cargo once"),
        entry("b", &["cargo"], "nothing"),
        entry("c", &[], "no match"),
        entry("d", &[], "cargo cargo cargo cargo"),
        entry("e", &[], "cargo once"),
    ];
    let found: Vec<&str> = search_memory_entries(&entries, "Cargo")
        .iter()
        .map(|e| e.id.as_str())
        .collect();
    assert_eq!(found, vec!["d", "b", "e", "a"]);
    assert_eq!(rank_memory_entries(&entries, &["cargo".to_string()]), vec![3, 1, 4, 0]);
}

#[test]
fn search_keeps_order_of_equal_entries() {
    let entries = vec![entry("x", &[], "hit one"), entry("x", &[], "hit two")];
    let found: Vec<&str> = search_memory_entries(&entries, "hit")
        .iter()
        .map(|e| e.text.as_str())
        .collect();
    assert_eq!(found, vec!["hit one", "hit two"]);
}

#[test]
fn empty_query_returns_everything() {
    let entries = vec![entry("b", &[], "x"), entry("a", &[], "y")];
    let found = search_memory_entries(&entries, "  ;, ");
    assert_eq!(found.len(), 2);
    assert_eq!(found[0].id, "b");
    assert_eq!(found[1].id, "a");
    assert!(search_memory_entries(&entries, "zzz").is_empty());
}

#[test]
fn memory_prompt_of_project() {
    assert_eq!(load_project_memory_prompt(None), None);
    assert_eq!(load_project_memory_prompt(Some(" \n\t".to_string())), None);
    assert_eq!(
        load_project_memory_prompt(Some("- [id:k] keep\n".to_string())),
        Some("- [id:k] keep".to_string())
    );
    assert_eq!(usable_memory("  ".to_string()), None);
    assert_eq!(usable_memory(" x ".to_string()), Some(" x ".to_string()));
}

#[test]
fn empty_term_matches_everywhere() {
    // every tag contains the empty term, and it occurs at each of the 3 positions of "ab"
    assert_eq!(memory_entry_score(&entry("x", &["t"], "ab"), &["".to_string()]), 7);
}

#[test]
fn text_that_opens_a_tag_list_is_read_as_tags_after_rendering() {
    let e = parse_memory_entry_line("- [id:a] [tags:] [tags:x] hi").unwrap();
    assert_eq!(e, entry("a", &[], "[tags:x] hi"));
    let again = parse_memory_entry_line(&render_memory_entry(&e)).unwrap();
    assert_eq!(again, entry("a", &["x"], "hi"));
}

#[test]
fn lines_parse_independently() {
    let a = "- [id:1] one\r\nnoise";
    let b = "\n- [id:2] [tags:x] two";
    let joined = format!("{}\n{}", a, b);
    let mut expected = parse_memory_entries(a);
    expected.extend(parse_memory_entries(b));
    assert_eq!(parse_memory_entries(&joined), expected);
    assert_eq!(expected.len(), 2);
}

#[test]
fn ascii_search_ignores_case() {
    let entries = vec![entry("Note", &["CLI"], "Use CARGO"), entry("other", &[], "none")];
    let upper = search_memory_entries(&entries, "CARGO cli");
    let lower = search_memory_entries(&entries, "cargo CLI");
    assert_eq!(upper.len(), 1);
    assert_eq!(upper, lower);
    assert_eq!(query_terms("ÄBC Σ"), vec!["äbc", "σ"]);
}

#[test]
fn scores_add_over_joined_terms() {
    let e = entry("rust", &["cli", "rust"], "rust cli rust");
    let t1 = vec!["rust".to_string()];
    let t2 = vec!["cli".to_string(), "zz".to_string()];
    let joined = [t1.clone(), t2.clone()].concat();
    assert_eq!(memory_entry_score(&e, &t1), 14);
    assert_eq!(memory_entry_score(&e, &t2), 5);
    assert_eq!(memory_entry_score(&e, &joined), 19);
    assert_eq!(
        memory_entry_score(&e, &joined),
        memory_entry_score(&e, &t1) + memory_entry_score(&e, &t2)
    );
}

#[test]
fn search_same_for_upper_and_lower_case_query() {
    let entries = vec![
        entry("a", &["Build"], "cargo build"),
        entry("b", &[], "Cargo Cargo"),
        entry("c", &[], "none"),
    ];
    let query = "Cargo, BUILD";
    let plain = search_memory_entries(&entries, query);
    let lower = search_memory_entries(&entries, &query.to_ascii_lowercase());
    let upper = search_memory_entries(&entries, &query.to_ascii_uppercase());
    let ids: Vec<&str> = plain.iter().map(|e| e.id.as_str()).collect();
    assert_eq!(ids, vec!["a", "b"]);
    assert_eq!(plain, lower);
    assert_eq!(plain, upper);
}

