use region::{Region, RegionError};

fn region(path: &str, start: u64, stop: u64) -> Region {
    Region { path: path.to_string(), start, stop }
}

#[test]
fn region_works() {
    assert_eq!(Region::new("".to_string()).ok(), None);
    assert_eq!(Region::new(":10-20".to_string()).ok(), None);
    assert_eq!(
        Region::new("chr1:12000-12001".to_string()).ok(),
        Some(Region { path: "chr1".to_string(), start: 12000, stop: 12001 })
    );
    assert_eq!(
        Region::new("chr1:1200943-1201000".to_string()).ok(),
        Some(Region { path: "chr1".to_string(), start: 1200943, stop: 1201000 })
    );
}

#[test]
fn region_format_works() {
    let a = "chr1:12000-12001";
    assert_eq!(Region::new(a.to_string()).unwrap().canonical_text(), a);
    let b = "10:120-120001";
    assert_eq!(Region::new(b.to_string()).unwrap().canonical_text(), b);
}

#[test]
fn empty_text_is_malformed() {
    assert_eq!(Region::new("".to_string()), Err(RegionError::MalformedRegion));
}

#[test]
fn empty_path_is_malformed() {
    assert_eq!(Region::new(":10-20".to_string()), Err(RegionError::MalformedRegion));
}

#[test]
fn malformed_texts() {
    for text in ["chr1", "chr1:", "chr1:-5", "chr1:a-5", "chr1:5-a", "chr1:5-6-7", "chr1:5:6x", "chr1:5 -6"] {
        assert_eq!(Region::new(text.to_string()), Err(RegionError::MalformedRegion), "{}", text);
    }
}

#[test]
fn missing_stop_is_invalid_coordinate() {
    assert_eq!(
        Region::new("chr1:100".to_string()),
        Err(RegionError::InvalidCoordinate("".to_string()))
    );
    assert_eq!(
        Region::new("chr1:100-".to_string()),
        Err(RegionError::InvalidCoordinate("".to_string()))
    );
}

#[test]
fn coordinate_overflow_is_invalid_coordinate() {
    assert_eq!(
        Region::new("chr1:18446744073709551616-1".to_string()),
        Err(RegionError::InvalidCoordinate("18446744073709551616".to_string()))
    );
    assert_eq!(
        Region::new("chr1:1-99999999999999999999".to_string()),
        Err(RegionError::InvalidCoordinate("99999999999999999999".to_string()))
    );
}

#[test]
fn largest_coordinates_parse() {
    assert_eq!(
        Region::new("chrM:18446744073709551615-0".to_string()),
        Ok(region("chrM", u64::MAX, 0))
    );
}

#[test]
fn leading_zeros_are_read() {
    let r = Region::new("chr2:007-010".to_string()).unwrap();
    assert_eq!(r, region("chr2", 7, 10));
    assert_eq!(r.canonical_text(), "chr2:7-10");
}

#[test]
fn path_takes_up_to_last_colon() {
    assert_eq!(Region::new("HLA:A:1-2".to_string()), Ok(region("HLA:A", 1, 2)));
    assert_eq!(Region::new("chr1-alt:3-4".to_string()), Ok(region("chr1-alt", 3, 4)));
}

#[test]
fn inverted_region_is_accepted() {
    let r = Region::new("chr1:150-100".to_string()).unwrap();
    assert_eq!(r, region("chr1", 150, 100));
    assert!(r.inverted());
    assert_eq!(r.interval(), 50);
}

#[test]
fn interval_either_orientation() {
    assert_eq!(region("c", 100, 150).interval(), 50);
    assert_eq!(region("c", 150, 100).interval(), 50);
    assert_eq!(region("c", 7, 7).interval(), 0);
    assert_eq!(region("c", 0, u64::MAX).interval(), u64::MAX);
    assert_eq!(region("c", u64::MAX, 0).interval(), u64::MAX);
}

#[test]
fn inverted_only_when_start_after_stop() {
    assert!(!region("c", 5, 5).inverted());
    assert!(!region("c", 4, 5).inverted());
    assert!(region("c", 6, 5).inverted());
}

#[test]
fn start_minus_moves_start_back() {
    let mut r = region("chr1", 100, 200);
    r.start_minus();
    assert_eq!(r, region("chr1", 99, 200));
    let mut s = region("chr1", 1, 1);
    s.start_minus();
    assert_eq!(s, region("chr1", 0, 1));
}

#[test]
fn uuid_is_canonical_text() {
    let r = region("chrX", 0, 1234567890);
    assert_eq!(r.canonical_text(), "chrX:0-1234567890");
    assert_eq!(r.uuid(), "chrX:0-1234567890");
    assert_eq!(region("chr1", 150, 100).uuid(), "chr1:150-100");
}

#[test]
fn canonical_text_parses_back() {
    for r in [region("chr1", 12000, 12001), region("10", 120, 120001), region("a:b", 0, u64::MAX)] {
        let text = r.canonical_text();
        let back = Region::new(text.clone()).unwrap();
        assert_eq!(back, r);
        assert_eq!(back.canonical_text(), text);
    }
}

#[test]
fn empty_prefix_strips_chr() {
    assert_eq!(Region::new_with_prefix("chr1:1-2".to_string(), "").unwrap().path, "1");
    assert_eq!(Region::new_with_prefix("1:1-2".to_string(), "").unwrap().path, "1");
    assert_eq!(Region::new_with_prefix("chrchr1:1-2".to_string(), "").unwrap().path, "chr1");
    assert_eq!(Region::new_with_prefix("ch:1-2".to_string(), "").unwrap().path, "ch");
}

#[test]
fn short_path_gets_prefix_back() {
    assert_eq!(Region::new_with_prefix("1:1-2".to_string(), "chr").unwrap().path, "chr1");
    assert_eq!(Region::new_with_prefix("chr1:1-2".to_string(), "chr").unwrap().path, "chr1");
    assert_eq!(Region::new_with_prefix("chr10:1-2".to_string(), "chr").unwrap().path, "chr10");
    assert_eq!(Region::new_with_prefix("chrX:1-2".to_string(), "chr").unwrap().path, "chrX");
}

#[test]
fn long_path_keeps_prefix_stripped() {
    assert_eq!(Region::new_with_prefix("chr1000:1-2".to_string(), "chr").unwrap().path, "1000");
    assert_eq!(
        Region::new_with_prefix("scaffold12:5-9".to_string(), "chr").unwrap(),
        region("scaffold12", 5, 9)
    );
}

#[test]
fn prefix_lengths_count_bytes() {
    // "é" takes two bytes, "éé" four: only the first is shorter than "chr".
    assert_eq!(Region::new_with_prefix("é:1-2".to_string(), "chr").unwrap().path, "chré");
    assert_eq!(Region::new_with_prefix("éé:1-2".to_string(), "chr").unwrap().path, "éé");
}

#[test]
fn prefix_parse_errors_match_plain_parse() {
    assert_eq!(Region::new_with_prefix("".to_string(), "chr"), Err(RegionError::MalformedRegion));
    assert_eq!(
        Region::new_with_prefix("chr1:5".to_string(), ""),
        Err(RegionError::InvalidCoordinate("".to_string()))
    );
}

#[test]
fn grammar_agrees_with_pattern() {
    let pattern = regex::Regex::new(r"^(.+):(\d+)-?(\d*)$").unwrap();
    let texts = [
        "", ":", "a:", ":1", "a:1", "a:1-", "a:1-2", "a:-2", "a:1--2", "a:1-2-", "a:b:1-2", "a:1:2", "a:1-2:",
        "x-y:10-20", "a:12a", "a:1-2b", "a b:3-4", "::1-2", "a::1-2", "-:0-0", "a:0009-", "a:1 2",
    ];
    for text in texts {
        let parsed = Region::new(text.to_string());
        match pattern.captures(text) {
            None => assert_eq!(parsed, Err(RegionError::MalformedRegion), "{}", text),
            Some(caps) => {
                let (path, start, stop) = (&caps[1], &caps[2], &caps[3]);
                match (start.parse::<u64>(), stop.parse::<u64>()) {
                    (Ok(a), Ok(b)) => assert_eq!(parsed, Ok(region(path, a, b)), "{}", text),
                    (Err(_), _) => {
                        assert_eq!(parsed, Err(RegionError::InvalidCoordinate(start.to_string())), "{}", text)
                    }
                    (Ok(_), Err(_)) => {
                        assert_eq!(parsed, Err(RegionError::InvalidCoordinate(stop.to_string())), "{}", text)
                    }
                }
            }
        }
    }
}
