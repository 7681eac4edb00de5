use schnellwerke::imageasset::{ImageLoader, PpmLine};
use schnellwerke::pak::header_flag;

fn lines(v: &[&str]) -> Vec<Vec<u8>> {
    v.iter().map(|l| l.as_bytes().to_vec()).collect()
}

#[test]
fn scan_ppm_header_and_data() {
    let r = ImageLoader::scan_ppm(&lines(&["P6", "# made by hand", "2 3", "255", "abc", "def"]));
    assert_eq!(
        r,
        Some(vec![PpmLine::Skip, PpmLine::Skip, PpmLine::Size(2, 3), PpmLine::Skip, PpmLine::Data, PpmLine::Data])
    );
}

#[test]
fn scan_ppm_size_line_with_maximum() {
    let r = ImageLoader::scan_ppm(&lines(&["P6", "4 5 255", "xyz"]));
    assert_eq!(r, Some(vec![PpmLine::Skip, PpmLine::Size(4, 5), PpmLine::Data]));
}

#[test]
fn scan_ppm_zero_size_is_read_again() {
    let r = ImageLoader::scan_ppm(&lines(&["0 0 1", "7 8 9", "q"]));
    assert_eq!(r, Some(vec![PpmLine::Size(0, 0), PpmLine::Size(7, 8), PpmLine::Data]));
}

#[test]
fn scan_ppm_negative_size_wraps() {
    let r = ImageLoader::scan_ppm(&lines(&["-1 2 3"]));
    assert_eq!(r, Some(vec![PpmLine::Size(u32::MAX, 2)]));
}

#[test]
fn scan_ppm_refusals() {
    assert_eq!(ImageLoader::scan_ppm(&lines(&["P6", "x y"])), None);
    assert_eq!(ImageLoader::scan_ppm(&lines(&["5"])), None);
    assert_eq!(ImageLoader::scan_ppm(&lines(&["1  2"])), None);
    assert_eq!(ImageLoader::scan_ppm(&lines(&[])), Some(vec![]));
}

#[test]
fn header_flag_cases() {
    let name = b"compression_active";
    assert!(header_flag(b"{\n  \"compression_active\": true\n}", name));
    assert!(header_flag(b"{\"compression_active\"\t:\n  true}", name));
    assert!(!header_flag(b"{\n  \"compression_active\": false\n}", name));
    assert!(!header_flag(b"{\n  \"levels\": 3\n}", name));
    assert!(!header_flag(b"\"compression_active\" true", name));
    assert!(!header_flag(b"\"compression_active\": tru", name));
    assert!(!header_flag(b"", name));
}
