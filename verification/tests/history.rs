use cachereaper_core::history::{
    audit_dir, clear_history, delete_receipt, free_space, header_line, item_line, now_millis,
    parse_receipt, read_df_column, read_history, read_line, signed_free_space_change, summary_line,
    valid_receipt_filename, HistoryFile, Receipt, ReceiptHeader, ReceiptItem, ReceiptLine,
    ReceiptSummary,
};
use cachereaper_core::json::thousandfold_of;
use cachereaper_core::path::{FsPath, Part};

fn file(name: &str, text: &str) -> HistoryFile {
    HistoryFile { name: name.to_string(), text: text.to_string() }
}

fn fixture() -> Vec<HistoryFile> {
    vec![
        file(
            "receipt-a.jsonl",
            &format!(
                "{}\nnot-json\n{}\n",
                r#"{"schema":1,"kind":"header","receipt_id":"a","started_at":2,"root":"/tmp","estimated_bytes":4,"free_before":10}"#,
                r#"{"schema":1,"kind":"summary","finished_at":3,"removed_count":0,"skipped_count":0,"estimated_removed_bytes":0,"free_after":10,"signed_free_space_change":0,"complete":true}"#
            ),
        ),
        file(
            "receipt-b.jsonl",
            "{\"schema\":1,\"kind\":\"header\",\"receipt_id\":\"b\",\"started_at\":1,\"root\":\"/tmp\",\"estimated_bytes\":0,\"free_before\":null}\n",
        ),
        file(
            "reap-old.jsonl",
            "{\"ts\":1.0,\"path\":\"/tmp/cache\",\"rule\":\"r\",\"tier\":\"low\",\"bytes\":7}\n",
        ),
    ]
}

#[test]
fn parses_complete_truncated_and_legacy_receipts() {
    let history = read_history(&fixture());
    assert_eq!(history.len(), 3);
    assert!(history
        .iter()
        .find(|receipt| receipt.receipt_id == "a")
        .unwrap()
        .parse_warning
        .is_some());
    assert!(
        !history
            .iter()
            .find(|receipt| receipt.receipt_id == "b")
            .unwrap()
            .complete
    );
    assert!(history.iter().find(|receipt| receipt.legacy).is_some());
}

#[test]
fn receipts_hold_exactly_what_their_lines_say() {
    let history = read_history(&fixture());
    let a = history.iter().find(|receipt| receipt.receipt_id == "a").unwrap();
    assert!(a.complete);
    assert_eq!(a.parse_warning.as_deref(), Some("ignored 1 malformed lines"));
    assert_eq!(a.free_before, Some(10));
    assert_eq!(a.file_name, "receipt-a.jsonl");
    assert_eq!(a.summary.as_ref().unwrap().signed_free_space_change, Some(0));

    let old = history.iter().find(|receipt| receipt.legacy).unwrap();
    assert_eq!(old.receipt_id, "reap-old");
    assert_eq!(old.started_at, 1000);
    assert_eq!(old.estimated_bytes, 7);
    assert!(old.complete);
    assert_eq!(old.items.len(), 1);
    assert_eq!(old.items[0].path, "/tmp/cache");
    assert_eq!(old.items[0].status, "removed");
    assert_eq!(old.items[0].regen, "");
}

#[test]
fn history_is_newest_first_with_ids_breaking_ties() {
    let header = |id: &str, at: u64| {
        format!("{{\"schema\":1,\"kind\":\"header\",\"receipt_id\":\"{id}\",\"started_at\":{at},\"root\":\"\",\"estimated_bytes\":0}}\n")
    };
    let files = vec![
        file("receipt-1.jsonl", &header("b", 5)),
        file("receipt-2.jsonl", &header("z", 1)),
        file("receipt-3.jsonl", &header("c", 5)),
        file("receipt-4.jsonl", &header("a", 9)),
        file("notes.txt", &header("x", 99)),
        file("receipt-5.jsonl", "\n  \n"),
    ];
    let ids: Vec<String> =
        read_history(&files).into_iter().map(|receipt| receipt.receipt_id).collect();
    assert_eq!(ids, vec!["a", "c", "b", "z"]);
}

#[test]
fn filename_validation_rejects_escape_attempts() {
    assert!(valid_receipt_filename("receipt-1-2-3.jsonl"));
    assert!(!valid_receipt_filename("../receipt-1.jsonl"));
    assert!(!valid_receipt_filename("config.json"));
}

#[test]
fn filename_validation_looks_at_both_ends_and_every_character() {
    assert!(valid_receipt_filename("reap-2024_01.jsonl"));
    assert!(!valid_receipt_filename("receipt-1.json"));
    assert!(!valid_receipt_filename("reap.jsonl"));
    assert!(!valid_receipt_filename("receipt-a/b.jsonl"));
    assert!(!valid_receipt_filename("receipt-a b.jsonl"));
    assert!(!valid_receipt_filename("receipt-\u{e4}.jsonl"));
}

#[test]
fn free_space_deltas_keep_their_sign() {
    assert_eq!(signed_free_space_change(Some(10), Some(15)), Some(5));
    assert_eq!(signed_free_space_change(Some(10), Some(10)), Some(0));
    assert_eq!(signed_free_space_change(Some(15), Some(10)), Some(-5));
    assert_eq!(signed_free_space_change(None, Some(10)), None);
}

#[test]
fn free_space_is_the_fourth_column_of_the_last_line() {
    let output = "Filesystem 1024-blocks Used Available Capacity Mounted on\n/dev/disk1 1000 600 400 60% /\n";
    assert_eq!(free_space(output), Some(400 * 1024));
    assert_eq!(read_df_column(output, 1), Some(1000 * 1024));
    assert_eq!(free_space(""), None);
    assert_eq!(free_space("one two three"), None);
    assert_eq!(free_space("a b c d"), None);
    assert_eq!(free_space("a b c 18446744073709551615"), Some(u64::MAX));
}

#[test]
fn the_clock_counts_milliseconds() {
    assert_eq!(now_millis(Some((1_700_000_000, 123_999_999))), 1_700_000_000_123);
    assert_eq!(now_millis(None), 0);
}

#[test]
fn receipts_live_below_home() {
    let home = FsPath { parts: vec![Part::Root, Part::Normal("h".to_string())] };
    assert_eq!(audit_dir(&home).spell('/'), "/h/.cachereaper");
}

fn only(text: &str) -> Receipt {
    parse_receipt(text, "receipt-x.jsonl").expect("a receipt")
}

#[test]
fn a_header_must_have_every_member_of_its_type() {
    let good = r#"{"schema":1,"kind":"header","receipt_id":"a","started_at":2,"root":"/","estimated_bytes":4,"extra":[1]}"#;
    assert!(!only(good).legacy);
    let bad = [
        r#"{"kind":"header","receipt_id":"a","started_at":2,"root":"/","estimated_bytes":4}"#,
        r#"{"schema":4294967296,"kind":"header","receipt_id":"a","started_at":2,"root":"/","estimated_bytes":4}"#,
        r#"{"schema":1,"kind":"header","receipt_id":7,"started_at":2,"root":"/","estimated_bytes":4}"#,
        r#"{"schema":1,"kind":"header","receipt_id":"a","started_at":-2,"root":"/","estimated_bytes":4}"#,
        r#"{"schema":1,"kind":"header","receipt_id":"a","started_at":2.0,"root":"/","estimated_bytes":4}"#,
        r#"{"schema":1,"kind":"header","receipt_id":"a","started_at":2,"root":"/","estimated_bytes":4,"free_before":"x"}"#,
    ];
    for line in bad {
        let receipt = only(line);
        assert!(receipt.legacy, "{line}");
        assert!(!receipt.complete);
        assert_eq!(receipt.parse_warning.as_deref(), Some("ignored 1 malformed lines"));
    }
}

#[test]
fn other_lines_are_malformed() {
    for line in ["[1,2]", "3", "\"text\"", "{}", "{\"kind\":\"other\"}", "{"] {
        assert!(matches!(read_line(line), ReceiptLine::Malformed), "{line}");
    }
    assert!(matches!(read_line("   \t"), ReceiptLine::Blank));
    assert!(matches!(read_line("{\"path\":null}"), ReceiptLine::Legacy(_, 0)));
    assert!(matches!(read_line("{\"kind\":\"other\",\"path\":\"/x\"}"), ReceiptLine::Legacy(_, 0)));
}

#[test]
fn an_empty_file_is_no_receipt() {
    assert!(parse_receipt("", "receipt-x.jsonl").is_none());
    assert!(parse_receipt("\n \n", "receipt-x.jsonl").is_none());
}

#[test]
fn bare_lines_are_added_up_and_dated_by_the_latest() {
    let receipt = parse_receipt(
        "{\"ts\":2.5,\"path\":\"/a\",\"bytes\":5}\r\n{\"ts\":1,\"path\":\"/b\",\"bytes\":6}\n{\"path\":\"/c\",\"bytes\":-1}\n",
        "reap-1.jsonl.jsonl",
    )
    .unwrap();
    assert_eq!(receipt.receipt_id, "reap-1");
    assert_eq!(receipt.started_at, 2500);
    assert_eq!(receipt.estimated_bytes, 11);
    assert_eq!(receipt.items.len(), 3);
    assert_eq!(receipt.items[2].estimated_bytes, 0);
}

#[test]
fn seconds_become_milliseconds_as_doubles_do() {
    let samples: [f64; 16] = [
        0.0,
        -0.0,
        1.0,
        -5.5,
        0.001,
        0.0009999,
        1_700_000_000.123,
        1_718_000_123.987_654_3,
        4_503_599_627_370_497.5,
        9_007_199_254_740_993.0,
        1e20,
        3.4e35,
        3.5e38,
        1e300,
        f64::MIN_POSITIVE,
        5e-324,
    ];
    for seconds in samples {
        assert_eq!(thousandfold_of(seconds.to_bits()), (seconds * 1000.0) as u128, "{seconds}");
    }
    let mut bits: u64 = 0x3fe0_0000_0000_0001;
    for _ in 0..2000 {
        let seconds = f64::from_bits(bits);
        assert_eq!(thousandfold_of(bits), (seconds * 1000.0) as u128, "{seconds}");
        bits = bits.wrapping_mul(6364136223846793005).wrapping_add(1442695040888963407)
            % 0x4b00_0000_0000_0000;
    }
}

fn header() -> ReceiptHeader {
    ReceiptHeader {
        schema: 1,
        kind: "header".to_string(),
        receipt_id: "17-42-0".to_string(),
        started_at: 1_700_000_000_123,
        root: "/home/sam/\"quoted\"\n\u{1f600}".to_string(),
        estimated_bytes: u64::MAX,
        free_before: None,
    }
}

fn item(path: &str, status: &str) -> ReceiptItem {
    ReceiptItem {
        schema: 1,
        kind: "item".to_string(),
        path: path.to_string(),
        rule: "npm".to_string(),
        tier: "low".to_string(),
        label: "packages".to_string(),
        regen: "npm install".to_string(),
        estimated_bytes: 4096,
        status: status.to_string(),
        reason: String::new(),
    }
}

fn summary() -> ReceiptSummary {
    ReceiptSummary {
        schema: 1,
        kind: "summary".to_string(),
        finished_at: 1_700_000_000_456,
        removed_count: 1,
        skipped_count: 1,
        estimated_removed_bytes: 4096,
        free_after: Some(12),
        signed_free_space_change: Some(-3),
        complete: true,
    }
}

#[test]
fn lines_are_written_in_member_order() {
    assert_eq!(
        item_line(&item("/a", "removed")),
        r#"{"schema":1,"kind":"item","path":"/a","rule":"npm","tier":"low","label":"packages","regen":"npm install","estimated_bytes":4096,"status":"removed","reason":""}"#
    );
    assert_eq!(
        summary_line(&summary()),
        r#"{"schema":1,"kind":"summary","finished_at":1700000000456,"removed_count":1,"skipped_count":1,"estimated_removed_bytes":4096,"free_after":12,"signed_free_space_change":-3,"complete":true}"#
    );
    assert!(header_line(&header()).ends_with("\"estimated_bytes\":18446744073709551615,\"free_before\":null}"));
}

#[test]
fn figures_beyond_sixty_four_bits_are_written_with_all_their_digits() {
    let wide = ReceiptSummary { signed_free_space_change: Some(-18446744073709551615), ..summary() };
    assert!(summary_line(&wide).contains("\"signed_free_space_change\":-18446744073709551615,"));
    let low = ReceiptSummary { signed_free_space_change: Some(i64::MIN as i128), ..summary() };
    assert!(summary_line(&low).contains("\"signed_free_space_change\":-9223372036854775808,"));
    let none = ReceiptSummary { signed_free_space_change: None, ..summary() };
    assert!(summary_line(&none).contains("\"signed_free_space_change\":null,"));
    let late = ReceiptHeader { started_at: 1 << 64, ..header() };
    assert!(header_line(&late).contains("\"started_at\":18446744073709551616,"));
}

#[test]
fn a_session_that_was_written_is_read_back() {
    let mut text = String::new();
    for line in [
        header_line(&header()),
        item_line(&item("/a", "removed")),
        item_line(&item("/b\r\nc", "skipped")),
        summary_line(&summary()),
    ] {
        text.push_str(&line);
        text.push('\n');
    }
    let receipt = only(&text);
    assert_eq!(receipt.receipt_id, "17-42-0");
    assert_eq!(receipt.started_at, 1_700_000_000_123);
    assert_eq!(receipt.root, header().root);
    assert_eq!(receipt.estimated_bytes, u64::MAX);
    assert_eq!(receipt.free_before, None);
    assert_eq!(receipt.items.len(), 2);
    assert_eq!(receipt.items[1].path, "/b\r\nc");
    assert_eq!(receipt.items[1].status, "skipped");
    let end = receipt.summary.as_ref().unwrap();
    assert_eq!(end.signed_free_space_change, Some(-3));
    assert_eq!(end.finished_at, 1_700_000_000_456);
    assert!(receipt.complete);
    assert!(receipt.parse_warning.is_none());

    let truncated = only(&text[..text.len() - 40]);
    assert!(!truncated.complete);
    assert_eq!(truncated.items.len(), 2);
    assert!(truncated.parse_warning.is_some());
}

#[test]
fn only_receipts_are_handed_out_for_removal() {
    let mut history = read_history(&fixture());
    assert_eq!(delete_receipt(&history, "a"), Ok("receipt-a.jsonl".to_string()));
    assert_eq!(delete_receipt(&history, "nope"), Err("receipt not found".to_string()));
    history[0].file_name = "../../etc/passwd".to_string();
    let id = history[0].receipt_id.clone();
    assert_eq!(delete_receipt(&history, &id), Err("invalid receipt filename".to_string()));
    assert_eq!(clear_history(&history).len(), 2);
}
