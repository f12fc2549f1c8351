use werss_cli::state::{article_seq_dir, StateStore, StoredRecord};

fn rec(id: &str, status: &str, path: &str, title: &str, failed: u64) -> Option<StoredRecord> {
    Some(StoredRecord {
        article_id: id.to_string(),
        status: status.to_string(),
        file_path: path.to_string(),
        title: title.to_string(),
        failed_count: failed,
    })
}

#[test]
fn store_paths_join_output_and_mp() {
    let s = StateStore::new("MP_1", "./articles", vec![]);
    assert_eq!(s.mp_dir(), "./articles/MP_1");
    assert_eq!(s.state_file(), "./articles/MP_1/state.jsonl");
    let s = StateStore::new("MP_1", "out/", vec![]);
    assert_eq!(s.mp_dir(), "out/MP_1");
}

#[test]
fn later_lines_override_earlier_ones() {
    let s = StateStore::new(
        "MP",
        "o",
        vec![rec("a", "failed", "", "A", 2), None, rec("a", "success", "d/01/a.md", "A", 0)],
    );
    assert!(s.is_fetched("a"));
    assert!(!s.is_exhausted("a", 1));
    assert!(!s.is_fetched("b"));
}

#[test]
fn success_marks_fetched_and_resets_count() {
    let mut s = StateStore::new("MP", "o", vec![rec("a", "failed", "", "A", 2)]);
    assert_eq!(s.failed_count("a"), 2);
    let e = s.record("a", "A", 5, "success", "20250101/01/a.md");
    assert!(s.is_fetched("a"));
    assert_eq!(s.failed_count("a"), 0);
    assert_eq!(e.failed_count, 0);
    assert_eq!(e.status, "success");
    assert_eq!(e.file_path, "20250101/01/a.md");
    assert_eq!(e.publish_time, 5);
}

#[test]
fn failures_count_up_until_exhausted() {
    let mut s = StateStore::new("MP", "o", vec![]);
    assert!(!s.is_exhausted("a", 3));
    s.record("a", "A", 0, "failed", "");
    s.record("a", "A", 0, "failed", "");
    assert!(!s.is_exhausted("a", 3));
    let e = s.record("a", "A", 0, "failed", "");
    assert_eq!(e.failed_count, 3);
    assert!(s.is_exhausted("a", 3));
    assert!(!s.is_exhausted("a", 0));
    assert!(!s.is_fetched("a"));
}

#[test]
fn recording_one_article_leaves_others() {
    let mut s = StateStore::new("MP", "o", vec![rec("b", "success", "x.md", "B", 0)]);
    s.record("a", "A", 0, "failed", "");
    assert!(s.is_fetched("b"));
    assert_eq!(s.failed_count("b"), 0);
}

#[test]
fn compaction_keeps_latest_record_per_article() {
    let lines = vec![
        rec("a", "failed", "", "A", 1),
        rec("b", "success", "p/b.md", "B", 0),
        rec("a", "failed", "", "A", 2),
        rec("a", "success", "p/a.md", "A", 0),
    ];
    let s = StateStore::new("MP", "o", lines);
    assert!(s.needs_compaction(4) == false);
    assert!(s.needs_compaction(5));
    assert!(!s.needs_compaction(0));
    let compacted = s.compact();
    assert_eq!(compacted.len(), 2);
    let reloaded = StateStore::new("MP", "o", compacted.into_iter().map(Some).collect());
    assert!(reloaded.is_fetched("a"));
    assert!(reloaded.is_fetched("b"));
}

#[test]
fn appended_entry_reloads_to_same_state() {
    let mut s = StateStore::new("MP", "o", vec![rec("a", "failed", "", "A", 1)]);
    let e = s.record("a", "A", 9, "failed", "");
    let reloaded = StateStore::new(
        "MP",
        "o",
        vec![
            rec("a", "failed", "", "A", 1),
            Some(StoredRecord {
                article_id: e.article_id,
                status: e.status,
                file_path: e.file_path,
                title: e.title,
                failed_count: e.failed_count as u64,
            }),
        ],
    );
    assert_eq!(reloaded.failed_count("a"), 2);
    assert_eq!(s.failed_count("a"), 2);
}

#[test]
fn failed_count_is_taken_modulo_two_to_the_32() {
    let s = StateStore::new("MP", "o", vec![rec("a", "failed", "", "A", (1u64 << 32) + 7)]);
    assert_eq!(s.failed_count("a"), 7);
}

#[test]
fn article_dir_plan_lists_own_then_same_title() {
    let s = StateStore::new(
        "MP",
        "out",
        vec![
            rec("a", "failed", "20240101/01/x.md", "T", 1),
            rec("b", "success", "20240102/01/y.md", "T", 0),
            rec("c", "success", "20240103/01/z.md", "Other", 0),
            rec("d", "success", "", "T", 0),
        ],
    );
    let plan = s.resolve_article_dir("a", "T", 1431648000);
    assert_eq!(plan.candidates[0], "out/MP/20240101/01/x.md");
    assert_eq!(plan.candidates.len(), 3);
    assert!(plan.candidates[1..].contains(&"out/MP/20240101/01/x.md".to_string()));
    assert!(plan.candidates[1..].contains(&"out/MP/20240102/01/y.md".to_string()));
    assert_eq!(plan.date_dir, "out/MP/20150515");
    let plan = s.resolve_article_dir("new", "None", 0);
    assert!(plan.candidates.is_empty());
    assert_eq!(plan.date_dir, "out/MP/unknown");
}

#[test]
fn sequence_dirs_are_two_digits() {
    assert_eq!(article_seq_dir("d", 0), "d/01");
    assert_eq!(article_seq_dir("d", 8), "d/09");
    assert_eq!(article_seq_dir("d", 9), "d/10");
    assert_eq!(article_seq_dir("d", 99), "d/100");
}

#[test]
fn failures_in_a_row_give_up_at_max() {
    let mut s = StateStore::new("MP", "o", vec![rec("a", "success", "x.md", "A", 0)]);
    for k in 1..=4u32 {
        s.record("a", "A", 1, "failed", "");
        assert_eq!(s.failed_count("a"), k);
        assert_eq!(s.is_exhausted("a", 3), k >= 3);
        assert!(!s.is_exhausted("a", 0));
        assert!(!s.is_fetched("a"));
    }
    s.record("a", "A", 1, "success", "x.md");
    assert!(s.is_fetched("a"));
    assert!(!s.is_exhausted("a", 1));
}

#[test]
fn appended_entries_reload_to_the_same_store() {
    let mut s = StateStore::new("MP", "o", vec![rec("a", "failed", "", "A", 1)]);
    let mut lines = vec![rec("a", "failed", "", "A", 1)];
    for (id, status) in [("a", "failed"), ("b", "success"), ("a", "failed"), ("c", "failed"), ("b", "failed")] {
        let e = s.record(id, "T", 7, status, "f.md");
        lines.push(Some(StoredRecord {
            article_id: e.article_id.clone(),
            status: e.status.clone(),
            file_path: e.file_path.clone(),
            title: e.title.clone(),
            failed_count: e.failed_count as u64,
        }));
    }
    let reloaded = StateStore::new("MP", "o", lines);
    for id in ["a", "b", "c", "d"] {
        assert_eq!(reloaded.is_fetched(id), s.is_fetched(id));
        assert_eq!(reloaded.failed_count(id), s.failed_count(id));
        assert_eq!(reloaded.is_exhausted(id, 2), s.is_exhausted(id, 2));
    }
    assert_eq!(s.failed_count("a"), 3);
    assert!(s.is_exhausted("a", 3));
    assert!(!s.is_fetched("b"));
}

#[test]
fn recording_one_article_leaves_another() {
    let mut s = StateStore::new("MP", "o", vec![rec("a", "success", "x.md", "A", 0), rec("b", "failed", "", "B", 2)]);
    s.record("b", "B", 1, "failed", "");
    s.record("c", "C", 1, "success", "c.md");
    assert!(s.is_fetched("a"));
    assert!(!s.is_exhausted("a", 1));
    assert!(s.is_exhausted("b", 3));
}

#[test]
fn existing_candidate_gives_its_directory() {
    let s = StateStore::new("MP", "out", vec![rec("a", "success", "20250101/01/a.md", "A", 0), rec("b", "success", "20250102/03/b.md", "A", 0)]);
    let plan = s.resolve_article_dir("a", "A", 0);
    assert_eq!(plan.candidates[0], "out/MP/20250101/01/a.md");
    let mut exists = vec![false; plan.candidates.len()];
    assert_eq!(plan.existing_dir(&exists), None);
    let last = exists.len() - 1;
    exists[last] = true;
    assert!(plan.existing_dir(&exists).is_some());
    exists[0] = true;
    assert_eq!(plan.existing_dir(&exists).as_deref(), Some("out/MP/20250101/01"));
}

#[test]
fn compaction_writes_one_line_per_article() {
    let s = StateStore::new("MP", "o", vec![rec("a", "failed", "", "A", 1), rec("b", "success", "b.md", "B", 0), rec("a", "success", "a.md", "A", 0)]);
    let lines = s.compact();
    assert_eq!(lines.len(), 2);
    assert_ne!(lines[0].article_id, lines[1].article_id);
}
