use tracesheet::cache::CacheMap;
use tracesheet::enrich::{
    is_done_line, make_record, parse_record_line, parse_targets, render_record_line, select_calls,
    Record, Target,
};
use tracesheet::report::{build_sheet_for_target, sort_records_desc, Cell, CellStyle, SortKey};
use tracesheet::resolve::{
    name_begin, name_step, signature_begin, signature_finish, NameError, NameOutcome,
};
use tracesheet::trace::TraceNode;

fn leaf(call_type: &str, input: &str, from: &str, to: &str) -> TraceNode {
    TraceNode {
        call_type: call_type.to_string(),
        input: input.to_string(),
        from: from.to_string(),
        to: to.to_string(),
        calls: Vec::new(),
    }
}

fn record(call_type: &str, sig: &str, from: &str, to: &str, fname: &str, tname: &str) -> Record {
    Record {
        call_type: call_type.to_string(),
        signature: sig.to_string(),
        from: from.to_string(),
        to: to.to_string(),
        from_name: fname.to_string(),
        to_name: tname.to_string(),
    }
}

/// Resolve one address to completion by feeding scripted lookup results
/// (declared name, implementation address) in chain order. Returns the name
/// and how many lookups were performed.
fn resolve_name_scripted(
    cache: &mut CacheMap,
    address: &str,
    script: &[(&str, &str)],
) -> (String, usize) {
    let mut used = 0;
    let mut outcome = name_begin(cache, address);
    loop {
        match outcome {
            NameOutcome::Done(name) => return (name, used),
            NameOutcome::Lookup(st) => {
                let (declared, implementation) = script[used];
                used += 1;
                let (next, _lines) = name_step(cache, st, declared, implementation).unwrap();
                outcome = next;
            }
        }
    }
}

// Pre-order flattening: parent before children, children left to right, and
// flattening the same tree twice is deterministic.
#[test]
fn flatten_is_preorder_and_deterministic() {
    let mut root = leaf("call", "0x11223344aa", "0xa", "0xb");
    let mut child1 = leaf("delegatecall", "", "0xb", "0xc");
    child1.calls.push(leaf("staticcall", "0xdeadbeef00", "0xc", "0xd"));
    root.calls.push(child1);
    root.calls.push(leaf("call", "", "0xb", "0xe"));

    let flat = root.flatten();
    let order: Vec<(String, String, String)> = flat
        .iter()
        .map(|c| (c.call_type.clone(), c.from.clone(), c.to.clone()))
        .collect();
    assert_eq!(
        order,
        vec![
            ("call".to_string(), "0xa".to_string(), "0xb".to_string()),
            ("delegatecall".to_string(), "0xb".to_string(), "0xc".to_string()),
            ("staticcall".to_string(), "0xc".to_string(), "0xd".to_string()),
            ("call".to_string(), "0xb".to_string(), "0xe".to_string()),
        ]
    );
    let again = root.flatten();
    assert_eq!(flat.len(), again.len());
    for (a, b) in flat.iter().zip(again.iter()) {
        assert_eq!(a.call_type, b.call_type);
        assert_eq!(a.selector, b.selector);
        assert_eq!(a.from, b.from);
        assert_eq!(a.to, b.to);
    }
}

#[test]
fn selector_is_first_ten_characters() {
    let n = leaf("call", "0x4870496f0000", "0xa", "0xb");
    assert_eq!(n.extract_call().selector, "0x4870496f");
    let exact = leaf("call", "0x4870496f", "0xa", "0xb");
    assert_eq!(exact.extract_call().selector, "0x4870496f");
}

#[test]
fn touches_finds_nested_receiver() {
    let mut root = leaf("call", "", "0xa", "0xb");
    root.calls.push(leaf("call", "", "0xb", "0xdeep"));
    assert!(root.touches("0xdeep"));
    assert!(root.touches("0xb"));
    assert!(!root.touches("0xa"));
}

// A selector already in the cache is answered without any lookup.
#[test]
fn cached_selector_needs_no_lookup() {
    let mut cache = CacheMap::new();
    let _ = cache.put("0x4870496f", "transfer(address,uint256)");
    let hit = signature_begin(&cache, "0x4870496f");
    assert_eq!(hit, Some("transfer(address,uint256)".to_string()));
}

// The empty selector resolves to the empty signature with no cache or
// lookup interaction.
#[test]
fn empty_selector_resolves_empty_with_no_lookup() {
    let cache = CacheMap::new();
    assert_eq!(signature_begin(&cache, ""), Some(String::new()));
}

// Resolving the same selector twice issues at most one lookup and gives
// identical output.
#[test]
fn signature_resolution_is_idempotent() {
    let mut cache = CacheMap::new();
    assert_eq!(signature_begin(&cache, "0xaabbccdd"), None);
    let line = signature_finish(&mut cache, "0xaabbccdd", "approve(address,uint256)");
    assert_eq!(line, "0xaabbccdd\tapprove(address,uint256)\n");
    assert_eq!(
        signature_begin(&cache, "0xaabbccdd"),
        Some("approve(address,uint256)".to_string())
    );
}

// A proxy chain of depth 2 composes a name with exactly 2 arrow-separated
// joints, and the origin's cache entry stores the fully composed string.
#[test]
fn proxy_chain_composes_and_caches_full_name() {
    let mut cache = CacheMap::new();
    let (name, used) = resolve_name_scripted(
        &mut cache,
        "0xproxy",
        &[("Outer", "0xmid"), ("Mid", "0ximpl"), ("Impl", "")],
    );
    assert_eq!(name, "Outer -> Mid -> Impl");
    assert_eq!(used, 3);
    assert_eq!(name.matches(" -> ").count(), 2);
    assert_eq!(cache.get("0xproxy"), Some(&"Outer -> Mid -> Impl".to_string()));
    assert_eq!(cache.get("0xmid"), Some(&"Mid -> Impl".to_string()));
    assert_eq!(cache.get("0ximpl"), Some(&"Impl".to_string()));
}

// Resolving the same address twice gives the same name and no further
// lookups.
#[test]
fn name_resolution_is_idempotent() {
    let mut cache = CacheMap::new();
    let (first, used_first) =
        resolve_name_scripted(&mut cache, "0xproxy", &[("Outer", "0ximpl"), ("Impl", "")]);
    assert_eq!(first, "Outer -> Impl");
    assert_eq!(used_first, 2);
    let (second, used_second) = resolve_name_scripted(&mut cache, "0xproxy", &[]);
    assert_eq!(second, first);
    assert_eq!(used_second, 0);
}

#[test]
fn empty_address_resolves_to_empty_name() {
    let cache = CacheMap::new();
    match name_begin(&cache, "") {
        NameOutcome::Done(name) => assert_eq!(name, ""),
        NameOutcome::Lookup(_) => panic!("empty address must not need a lookup"),
    }
}

// An implementation pointing back at the chain is refused as a proxy cycle.
#[test]
fn proxy_cycle_is_refused() {
    let mut cache = CacheMap::new();
    let st = match name_begin(&cache, "0xa") {
        NameOutcome::Lookup(st) => st,
        NameOutcome::Done(_) => panic!("miss expected"),
    };
    let r = name_step(&mut cache, st, "Loop", "0xa");
    assert!(matches!(r, Err(NameError::ProxyCycleOrTooDeep)));
}

// A chain longer than the depth bound is refused.
#[test]
fn over_deep_proxy_chain_is_refused() {
    let mut cache = CacheMap::new();
    let mut outcome = name_begin(&cache, "0xh0");
    for i in 0..12 {
        let st = match outcome {
            NameOutcome::Lookup(st) => st,
            NameOutcome::Done(_) => panic!("chain should not close"),
        };
        let next = format!("0xh{}", i + 1);
        match name_step(&mut cache, st, "Hop", &next) {
            Ok((o, _)) => outcome = o,
            Err(NameError::ProxyCycleOrTooDeep) => {
                assert!(i >= 7, "refused too early, at hop {}", i);
                return;
            }
        }
    }
    panic!("chain was never refused");
}

// Round trip: entries written as log lines reload to the same mapping.
#[test]
fn cache_log_round_trips() {
    let mut cache = CacheMap::new();
    let mut log = String::new();
    log.push_str(&cache.put("0xaaa", "Vault"));
    log.push_str(&cache.put("0xbbb", "Router -> RouterImpl"));
    log.push_str(&cache.put("0x12345678", "swap(uint256)"));
    let reloaded = CacheMap::from_log(&log).unwrap();
    assert_eq!(reloaded.get("0xaaa"), Some(&"Vault".to_string()));
    assert_eq!(reloaded.get("0xbbb"), Some(&"Router -> RouterImpl".to_string()));
    assert_eq!(reloaded.get("0x12345678"), Some(&"swap(uint256)".to_string()));
    assert_eq!(reloaded.get("0xmissing"), None);
}

#[test]
fn cache_load_is_first_wins_and_rejects_malformed() {
    let cache = CacheMap::from_log("k\tfirst\nk\tsecond\n").unwrap();
    assert_eq!(cache.get("k"), Some(&"first".to_string()));
    assert!(CacheMap::from_log("no-tab-here\n").is_err());
    let empty = CacheMap::from_log("").unwrap();
    assert_eq!(empty.get("k"), None);
}

#[test]
fn targets_parse_lowercases_addresses() {
    let ts = parse_targets("0xAAA,Vault\n0xBbB,Router\n").unwrap();
    assert_eq!(ts.len(), 2);
    assert_eq!(ts[0].address, "0xaaa");
    assert_eq!(ts[0].label, "Vault");
    assert_eq!(ts[1].address, "0xbbb");
    assert_eq!(ts[1].label, "Router");
    assert!(parse_targets("address-without-comma\n").is_err());
}

// End-to-end scenario: one watched vault, one matching nested call, a
// signature fetched on miss, an unnamed sender and a named receiver.
#[test]
fn enrichment_emits_expected_line() {
    let targets = parse_targets("0xAAA,Vault\n").unwrap();
    let mut selector_cache = CacheMap::new();
    let mut name_cache = CacheMap::new();

    let mut root = leaf("call", "", "0xdead", "0xfeed");
    root.calls.push(leaf("call", "0x4870496f99", "0xbbb", "0xaaa"));

    let calls = select_calls(root, &targets);
    assert_eq!(calls.len(), 1);
    let call = &calls[0];
    assert_eq!(call.call_type, "call");
    assert_eq!(call.selector, "0x4870496f");

    let signature = match signature_begin(&selector_cache, &call.selector) {
        Some(s) => s,
        None => {
            // one external lookup; its first candidate name comes back
            let fetched = "transfer(address,uint256)";
            signature_finish(&mut selector_cache, &call.selector, fetched);
            fetched.to_string()
        }
    };
    let (from_name, _) = resolve_name_scripted(&mut name_cache, &call.from, &[("", "")]);
    let (to_name, _) = resolve_name_scripted(&mut name_cache, &call.to, &[("Vault", "")]);

    let rec = make_record(call, signature, from_name, to_name);
    let line = render_record_line(&rec);
    assert_eq!(line, "call\ttransfer(address,uint256)\t0xbbb\t0xaaa\t\tVault");
}

// A call whose input is shorter than ten characters carries no selector and
// resolves to the empty signature with zero lookups.
#[test]
fn short_input_gives_empty_signature_without_lookup() {
    let targets = parse_targets("0xaaa,Vault\n").unwrap();
    let root = leaf("call", "0xabc", "0xbbb", "0xaaa");
    let calls = select_calls(root, &targets);
    assert_eq!(calls.len(), 1);
    assert_eq!(calls[0].selector, "");
    let cache = CacheMap::new();
    assert_eq!(signature_begin(&cache, &calls[0].selector), Some(String::new()));
}

// The DONE sentinel ends the stream: traces after it are not processed.
#[test]
fn done_sentinel_stops_the_stream() {
    let targets = parse_targets("0xaaa,Vault\n").unwrap();
    let lines = vec![
        "first trace".to_string(),
        " DONE \r\n".to_string(),
        "second trace".to_string(),
    ];
    let mut processed = 0;
    for line in &lines {
        if is_done_line(line) {
            break;
        }
        // stand-in for parsing the line and enriching its trace
        let root = leaf("call", "", "0xbbb", "0xaaa");
        let calls = select_calls(root, &targets);
        processed += calls.len();
    }
    assert_eq!(processed, 1);
    assert!(is_done_line("DONE"));
    assert!(is_done_line("\tDONE\n"));
    assert!(!is_done_line("DONE trailing"));
    assert!(!is_done_line(""));
}

#[test]
fn record_line_round_trips() {
    let rec = record("call", "transfer(address,uint256)", "0xb", "0xa", "", "Vault");
    let line = render_record_line(&rec);
    let back = parse_record_line(&line).unwrap();
    assert_eq!(back.call_type, "call");
    assert_eq!(back.signature, "transfer(address,uint256)");
    assert_eq!(back.from, "0xb");
    assert_eq!(back.to, "0xa");
    assert_eq!(back.from_name, "");
    assert_eq!(back.to_name, "Vault");
    assert!(parse_record_line("only\tfour\tfields\there").is_none());
}

#[test]
fn sort_is_descending_by_the_chosen_name() {
    let recs = vec![
        record("call", "", "0x1", "0xt", "Alpha", "Zed"),
        record("call", "", "0x2", "0xt", "Mid", "Alpha"),
        record("call", "", "0x3", "0xt", "Zed", "Mid"),
    ];
    let by_from = sort_records_desc(recs, SortKey::FromName);
    let names: Vec<&str> = by_from.iter().map(|r| r.from_name.as_str()).collect();
    assert_eq!(names, vec!["Zed", "Mid", "Alpha"]);

    let recs2 = vec![
        record("call", "", "0x1", "0xt", "Alpha", "Zed"),
        record("call", "", "0x2", "0xt", "Mid", "Alpha"),
        record("call", "", "0x3", "0xt", "Zed", "Mid"),
    ];
    let by_to = sort_records_desc(recs2, SortKey::ToName);
    let names2: Vec<&str> = by_to.iter().map(|r| r.to_name.as_str()).collect();
    assert_eq!(names2, vec!["Zed", "Mid", "Alpha"]);
}

fn cell_at<'a>(cells: &'a [Cell], row: u32, col: u16) -> &'a Cell {
    cells
        .iter()
        .find(|c| c.row == row && c.col == col)
        .expect("cell missing")
}

// A call from one target to another carries the cross-target highlight on
// its "to"/"to name" cells, not the primary color.
#[test]
fn cross_target_call_gets_cross_highlight_on_to_cells() {
    let targets = parse_targets("0xaaa,Vault\n0xbbb,Router\n").unwrap();
    let data = vec![record("call", "sig()", "0xaaa", "0xbbb", "Vault", "Router")];
    let vault = Target { address: "0xaaa".to_string(), label: "Vault".to_string() };
    let cells = build_sheet_for_target(&vault, &targets, &data);
    assert_eq!(cell_at(&cells, 4, 3).style, CellStyle::CrossTarget);
    assert_eq!(cell_at(&cells, 4, 5).style, CellStyle::CrossTarget);
    // the row's primary side is the "from" side, which matches the target
    assert_eq!(cell_at(&cells, 4, 2).style, CellStyle::Primary);
    assert_eq!(cell_at(&cells, 4, 4).style, CellStyle::Primary);
}

#[test]
fn sheet_layout_headers_rows_and_primary_highlight() {
    let targets = parse_targets("0xaaa,Vault\n").unwrap();
    let data = vec![
        record("call", "a()", "0xzz", "0xaaa", "Beta", ""),
        record("call", "b()", "0xyy", "0xaaa", "Alpha", ""),
        record("call", "c()", "0xaaa", "0xqq", "", "Gamma"),
    ];
    let vault = Target { address: "0xaaa".to_string(), label: "Vault".to_string() };
    let cells = build_sheet_for_target(&vault, &targets, &data);

    assert_eq!(cell_at(&cells, 0, 0).text, "Target Address");
    assert_eq!(cell_at(&cells, 0, 0).style, CellStyle::Header);
    assert_eq!(cell_at(&cells, 1, 0).text, "0xaaa");
    assert_eq!(cell_at(&cells, 1, 1).text, "Vault");
    assert_eq!(cell_at(&cells, 3, 5).text, "To Name");

    // inbound rows first, sorted descending by sender name, then outbound
    assert_eq!(cell_at(&cells, 4, 4).text, "Beta");
    assert_eq!(cell_at(&cells, 5, 4).text, "Alpha");
    assert_eq!(cell_at(&cells, 6, 5).text, "Gamma");

    // inbound rows carry the primary highlight on the "to" side
    assert_eq!(cell_at(&cells, 4, 3).style, CellStyle::Primary);
    assert_eq!(cell_at(&cells, 4, 5).style, CellStyle::Primary);
    assert_eq!(cell_at(&cells, 4, 2).style, CellStyle::Plain);
    // the outbound row carries it on the "from" side
    assert_eq!(cell_at(&cells, 6, 2).style, CellStyle::Primary);
    assert_eq!(cell_at(&cells, 6, 4).style, CellStyle::Primary);
    assert_eq!(cell_at(&cells, 6, 3).style, CellStyle::Plain);
}

// A record matching no side of the target is excluded from its sheet.
#[test]
fn unrelated_record_is_excluded_from_sheet() {
    let targets = parse_targets("0xaaa,Vault\n").unwrap();
    let data = vec![record("call", "x()", "0x1", "0x2", "A", "B")];
    let vault = Target { address: "0xaaa".to_string(), label: "Vault".to_string() };
    let cells = build_sheet_for_target(&vault, &targets, &data);
    assert!(cells.iter().all(|c| c.row < 4));
}

// Loading the intermediate table keeps every real row, drops toplevel rows,
// and refuses malformed lines.
#[test]
fn data_file_load_filters_toplevel_rows() {
    let good = "call\ta()\t0x1\t0x2\tA\tB\ntoplevel\t\t0x1\t0x2\t\t\ncall\tb()\t0x3\t0x4\tC\tD\n";
    let records = tracesheet::enrich::parse_data(good).unwrap();
    assert_eq!(records.len(), 2);
    assert_eq!(records[0].signature, "a()");
    assert_eq!(records[1].signature, "b()");
    assert!(tracesheet::enrich::parse_data("too\tfew\tfields\n").is_err());
}
