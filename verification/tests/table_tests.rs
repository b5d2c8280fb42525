use std::time::{SystemTime, UNIX_EPOCH};

use byteorder::{ByteOrder, NetworkEndian};

use manuf::{parse, prefix, vendor, VendorTable, ETHER_ADDR_LEN};

fn table_from_lines(lines: &[&str]) -> VendorTable {
    let lines: Vec<String> = lines.iter().map(|s| s.to_string()).collect();
    let records = parse(&lines);
    VendorTable::build(&records)
}

fn sample_table() -> VendorTable {
    table_from_lines(&[
        "00:00:00\t00:00:00\tOfficially Xerox, but 0:0:0:0:0:0 is more common",
        "50:50:2A\tEgardia",
        "8C:85:90\tApple\tApple, Inc.",
        "FC:FF:AA\tIeeeRegi\tIEEE Registration Authority",
    ])
}

#[test]
fn test_vendor() {
    let t = sample_table();
    assert_eq!(
        vendor(&t, &[0x8c, 0x85, 0x90, 0x0b, 0xcb, 0x9e]),
        Some(("Apple".to_string(), "Apple, Inc.".to_string()))
    );
    assert_eq!(
        vendor(&t, &[0x00, 0x00, 0x00, 0x00, 0x00, 0x00]),
        Some((
            "00:00:00".to_string(),
            "Officially Xerox, but 0:0:0:0:0:0 is more common".to_string()
        ))
    );
    assert_eq!(
        vendor(&t, &[0xFC, 0xFF, 0xAA, 0x11, 0x22, 0x33]),
        Some(("IeeeRegi".to_string(), "IEEE Registration Authority".to_string()))
    );
    assert_eq!(
        vendor(&t, &[0x50, 0x50, 0x2a, 0x00, 0x00, 0x00]),
        Some(("Egardia".to_string(), "".to_string()))
    );
    assert_eq!(vendor(&t, &[0x0a, 0x00, 0x27, 0x00, 0x00, 0x00]), None);

    for i in 0..t.len() {
        let e = t.entry(i);
        let (prefix_bytes, prefix_mask) = (e.prefix, e.mask);
        let (name, desc) = (e.name.clone(), e.description.clone());
        if name == "IeeeRegi" {
            continue;
        }

        assert_eq!(vendor(&t, &prefix_bytes), Some((name.clone(), desc.clone())));

        let mut addr = [0; ETHER_ADDR_LEN];

        NetworkEndian::write_uint(
            &mut addr,
            NetworkEndian::read_uint(&prefix_bytes, ETHER_ADDR_LEN)
                + u64::from(
                    SystemTime::now()
                        .duration_since(UNIX_EPOCH)
                        .unwrap()
                        .subsec_nanos(),
                )
                    % (1 << (ETHER_ADDR_LEN * 8 - prefix_mask.count_ones() as usize)),
            ETHER_ADDR_LEN,
        );

        assert_eq!(vendor(&t, &addr), Some((name, desc)));
    }
}

#[test]
fn test_prefix() {
    let t = sample_table();
    assert!(
        prefix(&t, "Apple")
            .iter()
            .any(|p| *p == ([0x8c, 0x85, 0x90, 0x00, 0x00, 0x00], 24))
    );
    assert_eq!(
        prefix(&t, "00:00:00"),
        vec![([0x00, 0x00, 0x00, 0x00, 0x00, 0x00], 24)]
    );
    assert!(
        prefix(&t, "IeeeRegi")
            .iter()
            .any(|p| *p == ([0xFC, 0xFF, 0xAA, 0x00, 0x00, 0x00], 24))
    );

    for i in 0..t.len() {
        let e = t.entry(i);
        let (data, mask, name) = (e.prefix, e.mask, e.name.clone());
        assert!(prefix(&t, &name).iter().any(|p| p.0 == data && p.1 == mask.count_ones()));
    }
}

#[test]
fn test_vendor_endianness() {
    // the first byte is the most significant: [0,0,1,..] and [1,0,0,..]
    // must land on different entries
    let t = table_from_lines(&["00:00:01\tLow\tlow prefix", "01:00:00\tHigh\thigh prefix"]);
    assert_eq!(
        vendor(&t, &[0x01, 0x00, 0x00, 0x00, 0x00, 0x00]),
        Some(("High".to_string(), "high prefix".to_string()))
    );
    assert_eq!(
        vendor(&t, &[0x00, 0x00, 0x01, 0x42, 0x43, 0x44]),
        Some(("Low".to_string(), "low prefix".to_string()))
    );
    assert_eq!(vendor(&t, &[0x00, 0x00, 0x02, 0x00, 0x00, 0x00]), None);
}

#[test]
fn test_vendor_zero_length_prefix_matches_everything() {
    let t = table_from_lines(&["00:00:00:00:00:00/0\tAll\tcatch-all"]);
    assert_eq!(
        vendor(&t, &[0xde, 0xad, 0xbe, 0xef, 0x00, 0x01]),
        Some(("All".to_string(), "catch-all".to_string()))
    );
}

#[test]
fn test_vendor_empty_table() {
    let t = table_from_lines(&[]);
    assert_eq!(t.len(), 0);
    assert_eq!(vendor(&t, &[0x8c, 0x85, 0x90, 0x00, 0x00, 0x00]), None);
    assert!(prefix(&t, "Apple").is_empty());
}

#[test]
fn test_build_dedup_last_wins() {
    let t = table_from_lines(&["AA:BB:CC\tFirst\tone", "AA:BB:CC\tSecond\ttwo"]);
    assert_eq!(t.len(), 1);
    assert_eq!(
        vendor(&t, &[0xAA, 0xBB, 0xCC, 0x01, 0x02, 0x03]),
        Some(("Second".to_string(), "two".to_string()))
    );
}

#[test]
fn test_longer_prefix_shadows_between() {
    // an address under the /28 block resolves to the /28 entry, one under
    // the /24 but past the /28 block's value resolves by the nearest
    // entry below it
    let t = table_from_lines(&["8C:85:90\tWide\tw", "8C:85:90:A0:00:00/28\tNarrow\tn"]);
    assert_eq!(
        vendor(&t, &[0x8c, 0x85, 0x90, 0xa7, 0x00, 0x01]),
        Some(("Narrow".to_string(), "n".to_string()))
    );
    assert_eq!(
        vendor(&t, &[0x8c, 0x85, 0x90, 0x50, 0x00, 0x00]),
        Some(("Wide".to_string(), "w".to_string()))
    );
}

#[test]
fn test_prefix_length_recovered_from_mask() {
    let t = table_from_lines(&["8C:85:90:A0:00:00/28\tSub\tblock"]);
    assert_eq!(prefix(&t, "Sub"), vec![([0x8c, 0x85, 0x90, 0xa0, 0x00, 0x00], 28)]);
    assert!(prefix(&t, "sub").is_empty());
}
