use kwik::sys::cpu::CpuError;
use kwik::sys::mem::{self, MemError};

fn status_lines() -> Vec<String> {
    vec![
        "Name:\tcat".to_string(),
        "VmPeak:\t    9000 kB".to_string(),
        "VmHWM:\t    1234 kB".to_string(),
        "VmRSS:\t     512 kB".to_string(),
        "Threads:\t1".to_string(),
    ]
}

#[test]
fn mem_reads_status_member() {
    let lines = status_lines();
    assert!(matches!(mem::stat("VmPeak", &lines), Ok(9000)));
    assert!(matches!(mem::stat("VmHWM", &lines), Ok(1234)));
}

#[test]
fn mem_reports_missing_member() {
    let lines = status_lines();
    match mem::stat("VmSwap", &lines) {
        Err(MemError::InvalidStat(key)) => assert_eq!(key, "VmSwap"),
        _ => panic!("expected an error"),
    }
}

#[test]
fn mem_reports_unparsable_member() {
    let lines = vec!["VmHWM:\t  12x4 kB".to_string()];
    assert!(matches!(mem::stat("VmHWM", &lines), Err(MemError::InvalidStat(_))));
}

#[test]
fn mem_hwm_and_rss_are_in_bytes() {
    let lines = status_lines();
    assert!(matches!(mem::hwm(&lines), Ok(1_263_616)));
    assert!(matches!(mem::rss(&lines), Ok(524_288)));
}

#[test]
fn mem_first_matching_line_wins() {
    let lines = vec!["VmRSS:\t 1 kB".to_string(), "VmRSS:\t 2 kB".to_string()];
    assert!(matches!(mem::stat("VmRSS", &lines), Ok(1)));
}

#[test]
fn mem_parses_plus_sign_and_rejects_overflow() {
    let lines = vec![
        "A: +42 kB".to_string(),
        "B: 18446744073709551616 kB".to_string(),
        "C:  kB".to_string(),
    ];
    assert!(matches!(mem::stat("A", &lines), Ok(42)));
    assert!(matches!(mem::stat("B", &lines), Err(MemError::InvalidStat(_))));
    assert!(matches!(mem::stat("C", &lines), Err(MemError::InvalidStat(_))));
}

#[test]
fn mem_size_of_values() {
    let num: u32 = 5;
    assert_eq!(mem::size_of(&num), 4);

    let values = vec![0u32, 1, 2, 3];
    assert_eq!(mem::size_of_vec(&values), 40);

    let empty: Vec<u64> = Vec::new();
    assert_eq!(mem::size_of_vec(&empty), 24);
}

#[test]
fn mem_error_messages() {
    assert_eq!(MemError::InvalidStat("VmHWM".to_string()).message(), "stat for `VmHWM` not found");
    assert_eq!(MemError::MemInfo.message(), "could not find system memory information");
    assert_eq!(MemError::Clear.message(), "could not clear memory HWM");
    assert_eq!(MemError::Internal.message(), "an internal error occurred");
}

#[test]
fn cpu_error_message() {
    assert_eq!(CpuError::InvalidPid(42).message(), "process with id `42` not found");
}

#[test]
fn mem_trims_and_parses() {
    let text: Vec<char> = "  \t 77 \n".chars().collect();
    let trimmed: String = mem::trim(&text).into_iter().collect();
    assert_eq!(trimmed, "77");
    assert_eq!(mem::parse_u64(&"77".chars().collect()), Some(77));
    assert_eq!(mem::parse_u64(&"".chars().collect()), None);
    assert_eq!(mem::parse_u64(&"+".chars().collect()), None);
    assert_eq!(mem::parse_u64(&"18446744073709551615".chars().collect()), Some(u64::MAX));
}
