use fft_harness::artifact::{matches_pattern, resolve_artifact, NamePattern, ResolveError};
use fft_harness::check::{check_output, read_lines, CheckError};
use fft_harness::parse::{decimal_equals_hundredths, parse_decimal, parse_line, Decimal, LineError};
use fft_harness::reference::{ReferenceError, ReferenceSet};
use fft_harness::runner::{DifferentialRun, RunStep};
use fft_harness::size::{check_size, is_power_of_two, next_power_of_two, SizeError};
use fft_harness::text::{encode_samples, write_sample, Sample};

fn s(re: i64, im: i64) -> Sample {
    Sample { re, im }
}

/// Rounded input of size 4: theta = 0, pi/4, pi/2, 3pi/4.
fn input4() -> Vec<Sample> {
    vec![s(150, 0), s(35, 135), s(-100, 50), s(-35, -65)]
}

/// Rounded normalized transform of `input4`.
fn output4() -> Vec<Sample> {
    vec![s(25, 60), s(225, -60), s(25, -10), s(25, 10)]
}

const OUTPUT4_TEXT: &str = "0.25,0.60\n2.25,-0.60\n0.25,-0.10\n0.25,0.10\n";

fn dec(text: &str) -> Decimal {
    let v = text.as_bytes().to_vec();
    parse_decimal(&v, 0, v.len()).expect("a plain decimal")
}

fn text_of(sample: &Sample) -> String {
    let mut out = Vec::new();
    write_sample(&mut out, sample);
    String::from_utf8(out).unwrap()
}

fn names(list: &[&str]) -> Vec<Vec<u8>> {
    list.iter().map(|n| n.as_bytes().to_vec()).collect()
}

#[test]
fn power_of_two_sizes_accepted() {
    let mut n: usize = 1;
    while n <= 65536 {
        assert!(is_power_of_two(n));
        assert_eq!(check_size(n), Ok(n));
        n *= 2;
    }
}

#[test]
fn other_sizes_refused() {
    for n in [0usize, 3, 5, 6, 12, 100, 65535, 65537] {
        assert!(!is_power_of_two(n));
        assert_eq!(check_size(n), Err(SizeError::NotPowerOfTwo));
    }
}

#[test]
fn next_power_of_two_rounds_up() {
    assert_eq!(next_power_of_two(0), Some(1));
    assert_eq!(next_power_of_two(1), Some(1));
    assert_eq!(next_power_of_two(5), Some(8));
    assert_eq!(next_power_of_two(16384), Some(16384));
    assert_eq!(next_power_of_two(16385), Some(32768));
    assert_eq!(next_power_of_two(usize::MAX), None);
}

#[test]
fn sample_text_has_two_fraction_digits() {
    assert_eq!(text_of(&s(150, 0)), "1.50,0.00");
    assert_eq!(text_of(&s(-5, 7)), "-0.05,0.07");
    assert_eq!(text_of(&s(-123456, 100)), "-1234.56,1.00");
    assert_eq!(text_of(&s(i64::MIN, i64::MAX)), "-92233720368547758.08,92233720368547758.07");
}

#[test]
fn input_file_of_size_four() {
    let text = encode_samples(&input4());
    assert_eq!(text, b"1.50,0.00\n0.35,1.35\n-1.00,0.50\n-0.35,-0.65\n".to_vec());
    assert!(encode_samples(&Vec::new()).is_empty());
}

#[test]
fn decimals_compare_exactly() {
    assert!(decimal_equals_hundredths(&dec("1.5"), 150));
    assert!(decimal_equals_hundredths(&dec("1.500"), 150));
    assert!(decimal_equals_hundredths(&dec("+2"), 200));
    assert!(decimal_equals_hundredths(&dec("-0.00"), 0));
    assert!(decimal_equals_hundredths(&dec("-.25"), -25));
    assert!(!decimal_equals_hundredths(&dec("1.501"), 150));
    assert!(!decimal_equals_hundredths(&dec("-1.5"), 150));
    assert!(!decimal_equals_hundredths(&dec("0.001"), 0));
    assert!(decimal_equals_hundredths(&dec("0.0000000000000000000000000"), 0));
}

#[test]
fn decimal_reads_sign_digits_and_point() {
    assert_eq!(dec("-12.340"), Decimal { negative: true, digits: 12340, scale: 3 });
    assert_eq!(dec("7."), Decimal { negative: false, digits: 7, scale: 0 });
    for bad in ["", "-", ".", "1.2.3", "1e5", " 1", "inf", "99999999999999999999"] {
        let v = bad.as_bytes().to_vec();
        assert_eq!(parse_decimal(&v, 0, v.len()), None, "{bad}");
    }
}

#[test]
fn line_errors() {
    assert_eq!(parse_line(&b"1.00 2.00".to_vec()), Err(LineError::MissingComma));
    assert_eq!(parse_line(&b"1.00,x".to_vec()), Err(LineError::BadNumber));
    assert_eq!(parse_line(&b"1.00,2.00,3.00".to_vec()), Err(LineError::BadNumber));
    let r = parse_line(&b"0.25,-0.60".to_vec()).unwrap();
    assert!(decimal_equals_hundredths(&r.re, 25));
    assert!(decimal_equals_hundredths(&r.im, -60));
}

#[test]
fn written_sample_reads_back() {
    for sample in [s(0, 0), s(-1, 1), s(12345, -99), s(i64::MIN, i64::MAX)] {
        let mut line = Vec::new();
        write_sample(&mut line, &sample);
        let r = parse_line(&line).unwrap();
        assert!(decimal_equals_hundredths(&r.re, sample.re));
        assert!(decimal_equals_hundredths(&r.im, sample.im));
    }
}

#[test]
fn size_four_candidate_passes() {
    assert_eq!(check_output(&OUTPUT4_TEXT.as_bytes().to_vec(), &output4()), Ok(()));
    assert_eq!(check_output(&encode_samples(&output4()), &output4()), Ok(()));
    let crlf = "0.25,0.6\r\n2.25,-0.6\r\n0.250,-0.1\r\n0.25,0.1";
    assert_eq!(check_output(&crlf.as_bytes().to_vec(), &output4()), Ok(()));
}

#[test]
fn altered_sample_is_reported() {
    let text = "0.25,0.60\n2.25,-0.60\n0.25,-0.20\n0.25,0.10\n";
    assert_eq!(
        check_output(&text.as_bytes().to_vec(), &output4()),
        Err(CheckError::SampleMismatch { index: 2 })
    );
}

#[test]
fn missing_sample_is_reported() {
    let text = "0.25,0.60\n2.25,-0.60\n0.25,-0.10\n";
    assert_eq!(
        check_output(&text.as_bytes().to_vec(), &output4()),
        Err(CheckError::LengthMismatch { expected: 4, actual: 3 })
    );
    assert_eq!(
        check_output(&Vec::new(), &output4()),
        Err(CheckError::LengthMismatch { expected: 4, actual: 0 })
    );
    assert_eq!(check_output(&Vec::new(), &Vec::new()), Ok(()));
}

#[test]
fn unreadable_line_is_reported() {
    let text = "0.25,0.60\n2.25 -0.60\nhello\n";
    assert_eq!(
        check_output(&text.as_bytes().to_vec(), &output4()),
        Err(CheckError::Parse { line: 1, error: LineError::MissingComma })
    );
    assert_eq!(read_lines(&b"1,2\n\n".to_vec()).unwrap_err(), (1, LineError::MissingComma));
    assert_eq!(read_lines(&b"1,2\n3,4".to_vec()).unwrap().len(), 2);
}

#[test]
fn missing_artifact_is_not_found() {
    let jar = NamePattern::Affixes { prefix: b"fft".to_vec(), suffix: b".jar".to_vec() };
    let entries = names(&["classes", "fft-1.0.war", "demo.jar", "maven-status"]);
    assert_eq!(resolve_artifact(&jar, &entries), Err(ResolveError::NotFound));
    assert_eq!(resolve_artifact(&jar, &Vec::new()), Err(ResolveError::NotFound));
}

#[test]
fn single_artifact_is_picked() {
    let jar = NamePattern::Affixes { prefix: b"fft".to_vec(), suffix: b".jar".to_vec() };
    let entries = names(&["classes", "fft-1.0-SNAPSHOT.jar", "fft"]);
    assert_eq!(resolve_artifact(&jar, &entries), Ok(1));
    let exe = NamePattern::Exact { name: b"fft".to_vec() };
    assert_eq!(resolve_artifact(&exe, &entries), Ok(2));
    assert!(!matches_pattern(&exe, &b"fft.exe".to_vec()));
    assert!(!matches_pattern(&jar, &b"ff.jar".to_vec()));
}

#[test]
fn two_artifacts_are_ambiguous() {
    let jar = NamePattern::Affixes { prefix: b"fft".to_vec(), suffix: b".jar".to_vec() };
    let entries = names(&["fft-1.0.jar", "x", "fft-1.0-sources.jar"]);
    assert_eq!(resolve_artifact(&jar, &entries), Err(ResolveError::Ambiguous));
}

#[test]
fn reference_set_orders_by_size() {
    let mut set = ReferenceSet::new();
    assert_eq!(set.insert(4, output4()), Ok(()));
    assert_eq!(set.insert(1, vec![s(1, 2)]), Ok(()));
    assert_eq!(set.insert(2, vec![s(0, 0), s(3, 4)]), Ok(()));
    assert_eq!(set.len(), 3);
    assert_eq!((set.size_at(0), set.size_at(1), set.size_at(2)), (1, 2, 4));
    assert_eq!(set.output_at(2), &output4());
    assert_eq!(set.insert(1, vec![s(9, 9)]), Ok(()));
    assert_eq!(set.len(), 3);
    assert_eq!(set.output_at(0), &vec![s(9, 9)]);
}

#[test]
fn reference_set_refuses_bad_entries() {
    let mut set = ReferenceSet::new();
    assert_eq!(set.insert(3, vec![s(0, 0); 3]), Err(ReferenceError::Size(SizeError::NotPowerOfTwo)));
    assert_eq!(set.insert(4, vec![s(0, 0); 3]), Err(ReferenceError::LengthMismatch));
    assert_eq!(set.len(), 0);
}

fn two_sizes() -> ReferenceSet {
    let mut set = ReferenceSet::new();
    set.insert(4, output4()).unwrap();
    set.insert(1, vec![s(150, 0)]).unwrap();
    set
}

#[test]
fn run_passes_through_sizes_in_order() {
    let set = two_sizes();
    let (mut run, step) = DifferentialRun::start(&set);
    assert_eq!(step, RunStep::Run { size: 1 });
    assert_eq!(run.on_output(&set, &b"1.5,0\n".to_vec()), RunStep::Run { size: 4 });
    assert_eq!(run.on_output(&set, &OUTPUT4_TEXT.as_bytes().to_vec()), RunStep::Passed);
    assert_eq!(run.pending_index(), 2);
}

#[test]
fn run_stops_at_first_mismatch() {
    let set = two_sizes();
    let (mut run, _) = DifferentialRun::start(&set);
    assert_eq!(run.on_output(&set, &b"1.50,0.00\n".to_vec()), RunStep::Run { size: 4 });
    let altered = "0.25,0.60\n2.25,-0.70\n0.25,-0.10\n0.25,0.10\n";
    assert_eq!(
        run.on_output(&set, &altered.as_bytes().to_vec()),
        RunStep::Failed { size: 4, error: CheckError::SampleMismatch { index: 1 } }
    );
    assert_eq!(run.pending_index(), 1);
    assert_eq!(set.output_at(run.pending_index()), &output4());
}

#[test]
fn run_over_empty_set_passes() {
    let set = ReferenceSet::new();
    let (_, step) = DifferentialRun::start(&set);
    assert_eq!(step, RunStep::Passed);
}
