use mpdelta::multimedia::{AudioOption, FileFormat, ValueTypeI64, ValueTypeString};
use std::ops::Bound;

#[test]
fn test_validate_i64() {
    assert!(ValueTypeI64::Any.validate(0));
    assert!(ValueTypeI64::from(..).validate(0));
    assert!(ValueTypeI64::from(0..).validate(0));
    assert!(!ValueTypeI64::from(0..).validate(-1));
    assert!(ValueTypeI64::from(..0).validate(-1));
    assert!(!ValueTypeI64::from(..0).validate(0));
    assert!(ValueTypeI64::Candidates(vec![0, 1, 2].into()).validate(0));
    assert!(!ValueTypeI64::Candidates(vec![0, 1, 2].into()).validate(3));
}

#[test]
fn test_validate_string() {
    assert!(ValueTypeString::Any.validate(""));
    assert!(ValueTypeString::Candidates(vec!["".into(), "a".into(), "b".into()].into()).validate(""));
    assert!(!ValueTypeString::Candidates(vec!["".into(), "a".into(), "b".into()].into()).validate("c"));
}

#[test]
fn validate_i64_half_open_range() {
    let ty = ValueTypeI64::from(-3..5);
    assert_eq!(ty, ValueTypeI64::Range(Bound::Included(-3), Bound::Excluded(5)));
    assert!(!ty.validate(-4));
    assert!(ty.validate(-3));
    assert!(ty.validate(4));
    assert!(!ty.validate(5));
}

#[test]
fn validate_i64_included_and_excluded_ends() {
    let ty = ValueTypeI64::Range(Bound::Excluded(0), Bound::Included(10));
    assert!(!ty.validate(0));
    assert!(ty.validate(1));
    assert!(ty.validate(10));
    assert!(!ty.validate(11));
    assert!(ValueTypeI64::Range(Bound::Unbounded, Bound::Unbounded).validate(i64::MIN));
    assert!(ValueTypeI64::from(..).validate(i64::MAX));
}

#[test]
fn validate_i64_empty_candidates() {
    assert!(!ValueTypeI64::Candidates(Vec::new().into()).validate(0));
    assert!(ValueTypeI64::Candidates(vec![5, -7].into()).validate(-7));
}

#[test]
fn validate_string_owned_candidates() {
    let ty = ValueTypeString::Candidates(vec![String::from("main").into(), "high".into()].into());
    assert!(ty.validate("main"));
    assert!(ty.validate("high"));
    assert!(!ty.validate("mai"));
    assert!(!ty.validate("mainx"));
    assert!(!ValueTypeString::Candidates(Vec::new().into()).validate(""));
    assert!(ValueTypeString::Any.validate("anything"));
}

#[test]
fn file_format_kinds() {
    let all = [
        FileFormat::Mp4,
        FileFormat::Webm,
        FileFormat::Mp3,
        FileFormat::Wav,
        FileFormat::Flac,
        FileFormat::Png,
        FileFormat::Jpeg,
        FileFormat::Webp,
    ];
    let video: Vec<_> = all.iter().copied().filter(|f| f.is_video()).collect();
    let audio: Vec<_> = all.iter().copied().filter(|f| f.is_audio()).collect();
    let image: Vec<_> = all.iter().copied().filter(|f| f.is_image()).collect();
    assert_eq!(video, vec![FileFormat::Mp4, FileFormat::Webm]);
    assert_eq!(audio, vec![FileFormat::Mp3, FileFormat::Wav, FileFormat::Flac]);
    assert_eq!(image, vec![FileFormat::Png, FileFormat::Jpeg, FileFormat::Webp]);
    assert!(!FileFormat::Flac.is_video() && FileFormat::Flac.is_audio() && !FileFormat::Flac.is_image());
}

#[test]
fn file_format_extensions() {
    assert_eq!(FileFormat::Mp4.extension(), "mp4");
    assert_eq!(FileFormat::Webm.extension(), "webm");
    assert_eq!(FileFormat::Mp3.extension(), "mp3");
    assert_eq!(FileFormat::Wav.extension(), "wav");
    assert_eq!(FileFormat::Flac.extension(), "flac");
    assert_eq!(FileFormat::Png.extension(), "png");
    assert_eq!(FileFormat::Jpeg.extension(), "jpeg");
    assert_eq!(FileFormat::Webp.extension(), "webp");
}

#[test]
fn audio_option_default_is_stable() {
    assert_eq!(AudioOption::default(), AudioOption::default());
}

#[test]
fn validate_i64_other_range_forms() {
    let ty = ValueTypeI64::from(-2..=2);
    assert_eq!(ty, ValueTypeI64::Range(Bound::Included(-2), Bound::Included(2)));
    assert!(ty.validate(2) && ty.validate(-2) && !ty.validate(3));
    let ty = ValueTypeI64::from(..=0);
    assert!(ty.validate(0) && !ty.validate(1));
    let ty = ValueTypeI64::from((Bound::Excluded(0), Bound::Unbounded));
    assert!(!ty.validate(0) && ty.validate(1));
}
