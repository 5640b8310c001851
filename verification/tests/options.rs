use mandalas::text::{decimal_string, parse_u64};
use mandalas::Options;
use std::path::PathBuf;

#[test]
fn parse_size() {
    assert_eq!(Options::parse_size("900x900x900"), Some((900, 900, 900)));
    assert_eq!(Options::parse_size("1x2x3"), Some((1, 2, 3)));
    assert_eq!(Options::parse_size("size: 12x34x56!"), Some((12, 34, 56)));
    assert_eq!(Options::parse_size("1x2x3x4"), Some((1, 2, 3)));
    assert_eq!(Options::parse_size("x1x2x3"), Some((1, 2, 3)));
    assert_eq!(Options::parse_size("0x0x0"), Some((0, 0, 0)));
    assert_eq!(Options::parse_size("007x08x9"), Some((7, 8, 9)));
}

#[test]
fn parse_size_refused() {
    assert_eq!(Options::parse_size(""), None);
    assert_eq!(Options::parse_size("900x900"), None);
    assert_eq!(Options::parse_size("axbxc"), None);
    assert_eq!(Options::parse_size("1xx2x3"), None);
    assert_eq!(Options::parse_size("1x2x"), None);
    assert_eq!(Options::parse_size("99999999999999999999x1x1"), None);
}

#[test]
fn parse_size_reads_file_names() {
    let name = mandalas::ops::filename_to_save((845, 91, 6322), 4213);
    assert_eq!(Options::parse_size(&name), Some((845, 91, 6322)));
}

#[test]
fn size_validator() {
    assert_eq!(Options::size_validator("900x900x900".to_string()), Ok(()));
    assert_eq!(
        Options::size_validator("900x900".to_string()),
        Err("\"900x900\" is not a valid size (in format \"NNNxMMM\")".to_string())
    );
    assert_eq!(Options::size_validator("0x10x10".to_string()), Err("Can't generate a 0-sized image".to_string()));
    assert_eq!(Options::size_validator("10x10x0".to_string()), Err("Can't generate a 0-sized image".to_string()));
}

#[test]
fn jobs_validator() {
    assert_eq!(Options::jobs_validator("4".to_string()), Ok(()));
    assert_eq!(Options::jobs_validator("+4".to_string()), Ok(()));
    assert_eq!(Options::jobs_validator("0".to_string()), Err("Can't run 0 threads".to_string()));
    assert_eq!(Options::jobs_validator("four".to_string()), Err("\"four\" is not a valid job amount".to_string()));
    assert_eq!(Options::jobs_validator("".to_string()), Err("\"\" is not a valid job amount".to_string()));
    assert_eq!(
        Options::jobs_validator("18446744073709551616".to_string()),
        Err("\"18446744073709551616\" is not a valid job amount".to_string())
    );
}

#[test]
fn parse_u64_matches_std() {
    for s in ["0", "42", "+7", "+", "-1", "", " 1", "1 ", "007", "18446744073709551615", "18446744073709551616", "1a"] {
        assert_eq!(parse_u64(s), s.parse::<u64>().ok(), "{:?}", s);
    }
}

#[test]
fn decimal_strings() {
    for n in [0u64, 9, 10, 12345, u64::MAX] {
        assert_eq!(decimal_string(n), n.to_string());
    }
}

#[test]
fn default_jobs() {
    assert_eq!(Options::default_jobs(1), (1, 1));
    assert_eq!(Options::default_jobs(2), (1, 1));
    assert_eq!(Options::default_jobs(4), (3, 1));
    assert_eq!(Options::default_jobs(8), (6, 2));
    assert_eq!(Options::default_jobs(7), (5, 2));
    let (gen, coll) = Options::default_job_counts();
    assert!(gen >= 1 && coll >= 1);
}

#[test]
fn default_jobs_pass_the_validator() {
    for cpus in [1usize, 2, 3, 4, 5, 16, 64, 1000] {
        let (gen, coll) = Options::default_jobs(cpus);
        assert_eq!(Options::jobs_validator(decimal_string(gen as u64)), Ok(()));
        assert_eq!(Options::jobs_validator(decimal_string(coll as u64)), Ok(()));
        assert_eq!(parse_u64(&decimal_string(gen as u64)), Some(gen as u64));
    }
}

#[test]
fn default_size_is_valid() {
    assert_eq!(Options::size_validator("900x900x900".to_string()), Ok(()));
}

#[test]
fn from_values() {
    let opts = Options::from_values("12x34x56", (".".to_string(), PathBuf::from(".")), "3", "1").unwrap();
    assert_eq!(opts.resolution, (12, 34, 56));
    assert_eq!(opts.outdir.0, ".");
    assert_eq!(opts.threads_gen, 3);
    assert_eq!(opts.threads_coll, 1);
    assert!(Options::from_values("12x34", (".".to_string(), PathBuf::from(".")), "3", "1").is_none());
    assert!(Options::from_values("12x34x5", (".".to_string(), PathBuf::from(".")), "x", "1").is_none());
    assert_eq!(opts.clone(), opts);
    assert_eq!(opts.clone().outdir.1, PathBuf::from("."));
}
