use topdown::perf::{
    aggregate_values, check_perf_privilege, combine_readings, cpu_id_from_midr, decode_reading,
    detect_pmu_counters, finalize_values, implementer_from_midr, midr_path, open_steps, parse_midr,
    part_from_midr, probe_codes, sum_group, ByteOrder, CounterSearch, EventConfig, OpenError,
    PerfEventAttr, Reading, MAX_COUNTERS,
};

fn names(items: &[&str]) -> Vec<String> {
    items.iter().map(|s| s.to_string()).collect()
}

#[test]
fn attributes_stand_where_the_kernel_wants_them() {
    let attr = PerfEventAttr::new_raw_event(ByteOrder::Little, 0x1122_3344_5566_7788, true);
    let mut expected = vec![0u8; 128];
    expected[0..4].copy_from_slice(&4u32.to_le_bytes());
    expected[4..8].copy_from_slice(&128u32.to_le_bytes());
    expected[8..16].copy_from_slice(&0x1122_3344_5566_7788u64.to_le_bytes());
    expected[32..40].copy_from_slice(&3u64.to_le_bytes());
    expected[40..48].copy_from_slice(&0x61u64.to_le_bytes());
    assert_eq!(attr.buf, expected);

    let attr = PerfEventAttr::new_raw_event(ByteOrder::Big, 0x11, false);
    let mut expected = vec![0u8; 128];
    expected[0..4].copy_from_slice(&4u32.to_be_bytes());
    expected[4..8].copy_from_slice(&128u32.to_be_bytes());
    expected[8..16].copy_from_slice(&0x11u64.to_be_bytes());
    expected[32..40].copy_from_slice(&3u64.to_be_bytes());
    expected[40..48].copy_from_slice(&0x60u64.to_be_bytes());
    assert_eq!(attr.buf, expected);
}

#[test]
fn the_first_event_leads_its_group_and_starts_disabled() {
    let steps = open_steps(ByteOrder::Little, &vec![0x11, 0x08, 0x1b]);
    assert_eq!(steps.len(), 3);
    for (i, step) in steps.iter().enumerate() {
        assert_eq!(step.leads, i == 0);
        assert_eq!(step.attr.buf[40], if i == 0 { 0x61 } else { 0x60 });
    }
    assert_eq!(steps[2].attr.buf[8], 0x1b);
    assert!(open_steps(ByteOrder::Little, &Vec::new()).is_empty());
}

#[test]
fn an_event_that_cannot_be_opened_is_named() {
    let event = EventConfig { name: "CPU_CYCLES".to_string(), code: 0x11 };
    let error = OpenError { event, cpu: 3, reason: "No such device".to_string() };
    assert_eq!(
        error.message(),
        "perf_event_open failed for event 'CPU_CYCLES' (code 0x11) on cpu 3: No such device"
    );
}

fn reading_bytes(value: u64, enabled: u64, running: u64) -> Vec<u8> {
    let mut buf = Vec::new();
    buf.extend_from_slice(&value.to_le_bytes());
    buf.extend_from_slice(&enabled.to_le_bytes());
    buf.extend_from_slice(&running.to_le_bytes());
    buf
}

#[test]
fn readings_are_scaled_if_the_counter_ran_part_of_the_time() {
    let order = ByteOrder::Little;
    assert_eq!(decode_reading(order, 24, &reading_bytes(7, 10, 10)), Reading::Exact(7));
    assert_eq!(decode_reading(order, 24, &reading_bytes(7, 10, 11)), Reading::Exact(7));
    assert_eq!(
        decode_reading(order, 24, &reading_bytes(u64::MAX, 10, 4)),
        Reading::Scaled { value: u64::MAX, time_enabled: 10, time_running: 4 }
    );
    assert_eq!(decode_reading(order, 24, &reading_bytes(7, 0, 4)), Reading::Zero);
    assert_eq!(decode_reading(order, 24, &reading_bytes(7, 4, 0)), Reading::Zero);
    assert_eq!(decode_reading(order, 23, &Vec::new()), Reading::Missing);
    assert_eq!(decode_reading(order, -1, &Vec::new()), Reading::Missing);
    let mut turned = Vec::new();
    for n in [0x0102u64, 3, 3] {
        turned.extend_from_slice(&n.to_be_bytes());
    }
    assert_eq!(decode_reading(ByteOrder::Big, 24, &turned), Reading::Exact(0x0102));
}

#[test]
fn values_are_added_over_cores() {
    let plus = |a: f64, b: f64| a + b;
    let mut sums = vec![1.0, 2.0, 3.0];
    let mut valid = vec![true, true, false];
    aggregate_values(&mut sums, &mut valid, &vec![Some(0.5), None], &plus);
    assert_eq!(sums, vec![1.5, 2.0, 3.0]);
    assert_eq!(valid, vec![true, false, false]);
    assert_eq!(finalize_values(&sums, &valid), vec![Some(1.5), None, None]);

    let mut valid = vec![true, true, false, true];
    aggregate_values(&mut sums, &mut valid, &vec![None], &plus);
    assert_eq!(sums, vec![1.5, 2.0, 3.0]);
    assert_eq!(valid, vec![false, true, false, true]);

    let readings = vec![vec![
        vec![Some(1.0), Some(10.0)],
        vec![Some(2.0), None],
        vec![Some(4.0)],
        vec![Some(8.0)],
    ]];
    assert_eq!(sum_group(2, &readings, 0, 2, 0.0, &plus), vec![Some(3.0), None]);
    let results =
        combine_readings(&vec![names(&["A", "B"]), names(&["C"])], &readings, 2, 0.0, &plus);
    assert_eq!(results.len(), 2);
    assert_eq!(results.get(&names(&["A", "B"])), Some(&vec![Some(3.0), None]));
    assert_eq!(results.get(&names(&["C"])), Some(&vec![Some(12.0)]));
    let empty: Vec<Vec<Vec<Option<f64>>>> = vec![Vec::new()];
    let results = combine_readings(&vec![names(&["A"])], &empty, 0, 0.0, &plus);
    assert_eq!(results.get(&names(&["A"])), Some(&vec![Some(0.0)]));
}

#[test]
fn values_are_added_over_processes() {
    let plus = |a: f64, b: f64| a + b;
    let readings = vec![
        vec![
            vec![Some(1.0), Some(10.0)],
            vec![Some(2.0), Some(20.0)],
            vec![Some(100.0)],
            vec![Some(200.0)],
        ],
        vec![
            vec![Some(4.0), Some(40.0)],
            vec![Some(8.0), None],
            vec![Some(400.0)],
            vec![Some(800.0)],
        ],
    ];
    assert_eq!(sum_group(1, &readings, 2, 4, 0.0, &plus), vec![Some(1500.0)]);
    let groups = vec![names(&["A", "B"]), names(&["C"])];
    let results = combine_readings(&groups, &readings, 2, 0.0, &plus);
    assert_eq!(results.get(&names(&["A", "B"])), Some(&vec![Some(15.0), None]));
    assert_eq!(results.get(&names(&["C"])), Some(&vec![Some(1500.0)]));
}

#[test]
fn privileges_come_from_the_kernel_root_or_a_capability() {
    assert!(check_perf_privilege(Some("1\n"), false, None).is_ok());
    assert!(check_perf_privilege(Some("-1\n"), false, None).is_ok());
    assert!(check_perf_privilege(Some("4"), true, None).is_ok());
    let error = check_perf_privilege(Some("3\n"), false, None).unwrap_err();
    assert_eq!(error.paranoid, 3);
    assert_eq!(
        error.message(),
        "perf_event_paranoid is 3 and process lacks CAP_PERFMON/CAP_SYS_ADMIN. \
         Set /proc/sys/kernel/perf_event_paranoid to -1 or run as root."
    );
    assert_eq!(check_perf_privilege(None, false, None).unwrap_err().paranoid, 2);
    assert_eq!(check_perf_privilege(Some("x"), false, Some("")).unwrap_err().paranoid, 2);
    let status = |caps: &str| format!("Name:\tt\nCapEff:\t{caps}\nCapBnd:\tffffffffffffffff\n");
    assert!(check_perf_privilege(Some("2"), false, Some(&status("0000004000000000"))).is_ok());
    assert!(check_perf_privilege(Some("2"), false, Some(&status("0000000000200000"))).is_ok());
    assert!(check_perf_privilege(Some("2"), false, Some(&status("000001ffffffffff"))).is_ok());
    assert!(check_perf_privilege(Some("2"), false, Some(&status("0000000000100000"))).is_err());
    assert!(check_perf_privilege(Some("2"), false, Some(&status("junk"))).is_err());
    assert!(check_perf_privilege(Some("2"), false, Some("CapEff: 0000004000000000")).is_err());
}

#[test]
fn counters_are_found_by_halving() {
    for counters in 0..40usize {
        let found = detect_pmu_counters(&|n: usize| n <= counters);
        assert_eq!(found, counters.clamp(1, MAX_COUNTERS));
    }
}

#[test]
fn six_probes_find_the_counters() {
    for counters in 0..40usize {
        let mut search = CounterSearch::new();
        let mut probes = 0;
        while let Some(n) = search.next() {
            search.step(n <= counters);
            probes += 1;
        }
        assert!(probes <= 6);
        assert_eq!(search.last_good, counters.clamp(1, MAX_COUNTERS));
    }
    assert_eq!(CounterSearch::new().next(), Some(16));
}

#[test]
fn probed_events_differ() {
    let codes = probe_codes(40);
    assert_eq!(codes.len(), 40);
    assert_eq!(codes[0], 0x08);
    assert_eq!(codes[1], 0x11);
    assert_eq!(codes[31], 0x26);
    assert_eq!(codes[32], 0x8008);
    for i in 0..40 {
        for j in 0..i {
            assert_ne!(codes[i], codes[j]);
        }
    }
}

#[test]
fn identification_registers_are_read() {
    assert_eq!(midr_path(3), "/sys/devices/system/cpu/cpu3/regs/identification/midr_el1");
    assert_eq!(parse_midr("0x00000000410fd4f0\n").unwrap(), 0x410fd4f0);
    assert_eq!(parse_midr(" 0X410FD4F0 ").unwrap(), 0x410fd4f0);
    assert_eq!(parse_midr("410fd4f0").unwrap(), 0x410fd4f0);
    let error = parse_midr("  none\n").unwrap_err();
    assert_eq!(error.message(), "Invalid MIDR value: none");
    assert_eq!(cpu_id_from_midr(0x410fd4f0), 0x41d4f);
    assert_eq!(implementer_from_midr(0x410fd4f0), 0x41);
    assert_eq!(part_from_midr(0x410fd4f0), 0xd4f);
    // Variant and revision do not bear on the id.
    assert_eq!(cpu_id_from_midr(0x412fd4f1), 0x41d4f);
}
