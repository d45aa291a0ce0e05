use driven::config::{parse_modcheck, parse_u64, FileModifiedCheck, ModcheckError, VisitConfig};

fn chars(s: &str) -> Vec<char> {
    s.chars().collect()
}

#[test]
fn empty_descriptor_means_no_check() {
    assert_eq!(parse_modcheck(""), Ok(None));
}

#[test]
fn mtime_and_size_are_read() {
    assert_eq!(
        parse_modcheck("11700000000 4096"),
        Ok(Some(FileModifiedCheck::MtimeAndSize((1700000000, 4096))))
    );
    assert_eq!(
        parse_modcheck("1+7 18446744073709551615"),
        Ok(Some(FileModifiedCheck::MtimeAndSize((7, u64::MAX))))
    );
}

#[test]
fn malformed_mtime_is_rejected() {
    assert_eq!(parse_modcheck("1123"), Err(ModcheckError::MalformedMtime));
    assert_eq!(parse_modcheck("1 123 456"), Err(ModcheckError::MalformedMtime));
    assert_eq!(parse_modcheck("1123  456"), Err(ModcheckError::MalformedMtime));
    assert_eq!(parse_modcheck("112a 456"), Err(ModcheckError::MalformedMtime));
    assert_eq!(parse_modcheck("1123 18446744073709551616"), Err(ModcheckError::MalformedMtime));
}

#[test]
fn digest_is_kept_as_text() {
    assert_eq!(
        parse_modcheck("2d41d8cd98f00b204e9800998ecf8427e"),
        Ok(Some(FileModifiedCheck::MD5Sum("d41d8cd98f00b204e9800998ecf8427e".to_string())))
    );
}

#[test]
fn unknown_prefix_is_rejected() {
    assert_eq!(parse_modcheck("3abc"), Err(ModcheckError::UnknownPrefix));
}

#[test]
fn numbers_read_like_from_str() {
    assert_eq!(parse_u64(&chars("0")), Some(0));
    assert_eq!(parse_u64(&chars("+42")), Some(42));
    assert_eq!(parse_u64(&chars("")), None);
    assert_eq!(parse_u64(&chars("+")), None);
    assert_eq!(parse_u64(&chars("-1")), None);
    assert_eq!(parse_u64(&chars("18446744073709551615")), Some(u64::MAX));
    assert_eq!(parse_u64(&chars("18446744073709551616")), None);
    assert_eq!(parse_u64(&chars("99999999999999999999")), None);
}

#[test]
fn config_from_values() {
    let c = VisitConfig::from_values(Some("/home/u".to_string()), None).unwrap();
    assert_eq!(c.topdir, Some("/home/u".to_string()));
    assert_eq!(c.topdir_metadata, None);
    let c = VisitConfig::from_values(None, Some("2abc")).unwrap();
    assert_eq!(c.topdir_metadata, Some(FileModifiedCheck::MD5Sum("abc".to_string())));
    assert_eq!(VisitConfig::from_values(None, Some("x")), Err(ModcheckError::UnknownPrefix));
}
