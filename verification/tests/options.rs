//! Mount options and other command-line values.

use rdwarfs::cli::parse::{
    Offset, effective_detail, image_window, parse_detail, parse_image_offset, parse_size,
    split_options,
};

#[test]
fn sizes_accept_binary_suffixes() {
    assert_eq!(parse_size("512"), Ok(512));
    assert_eq!(parse_size("512M"), Ok(512 << 20));
    assert_eq!(parse_size("512MB"), Ok(512 << 20));
    assert_eq!(parse_size("1g"), Ok(1 << 30));
    assert_eq!(parse_size(" 64K "), Ok(64 << 10));
    assert!(parse_size("512X").is_err());
    assert!(parse_size("").is_err());
}

#[test]
fn cachesize_is_split_from_the_fuse_options() {
    let opts = vec![
        "cachesize=256M,allow_root".to_string(),
        "kernel_cache".to_string(),
    ];
    let (cache, offset, rest) = split_options(&opts).expect("parse");
    assert_eq!(cache, Some(256 << 20));
    assert_eq!(offset, Offset::Start);
    assert_eq!(
        rest,
        vec!["allow_root".to_string(), "kernel_cache".to_string()]
    );
}

#[test]
fn absent_options_leave_the_defaults() {
    let (cache, offset, rest) = split_options(&["ro".to_string()]).expect("parse");
    assert_eq!(cache, None);
    assert_eq!(offset, Offset::Start);
    assert_eq!(rest, vec!["ro".to_string()]);
}

#[test]
fn offset_accepts_auto_and_a_number() {
    let (_, offset, rest) = split_options(&["offset=auto".to_string()]).expect("parse");
    assert_eq!(offset, Offset::Detect);
    assert!(rest.is_empty(), "offset is consumed, not passed to FUSE");

    let (_, offset, _) = split_options(&["offset=123456".to_string()]).expect("parse");
    assert_eq!(offset, Offset::At(123_456));

    assert!(split_options(&["offset=nope".to_string()]).is_err());
}

#[test]
fn sizes_say_what_is_wrong_with_them() {
    assert_eq!(
        parse_size("512X"),
        Err("unknown size suffix `x` in `512X`".to_string())
    );
    assert_eq!(parse_size("5 K"), Err("`5 K` is not a byte size".to_string()));
    assert_eq!(parse_size("-1"), Err("`-1` is not a byte size".to_string()));
    assert_eq!(
        parse_size("18446744073709551615K"),
        Err("`18446744073709551615K` overflows a byte size".to_string())
    );
    assert_eq!(parse_size("+7b"), Ok(7));
    assert_eq!(parse_size("\u{2003}2t\u{3000}"), Ok(2 << 40));
}

#[test]
fn split_options_stop_at_the_first_mistake() {
    let opts = vec!["a,,b".to_string(), "cachesize=1z,offset=nope".to_string()];
    assert_eq!(
        split_options(&opts).unwrap_err(),
        "unknown size suffix `z` in `1z`"
    );
    let opts = vec!["offset=-4".to_string()];
    assert_eq!(
        split_options(&opts).unwrap_err(),
        "offset must be `auto` or a byte offset: -4"
    );
    let (_, _, rest) = split_options(&["a,,b".to_string()]).unwrap();
    assert_eq!(rest, vec!["a".to_string(), "b".to_string()]);
}

#[test]
fn detail_levels_are_capped() {
    assert_eq!(parse_detail("0"), 0);
    assert_eq!(parse_detail("2"), 2);
    assert_eq!(parse_detail("99"), 7);
    assert_eq!(parse_detail("4294967296"), 3);
    assert_eq!(parse_detail("history,features"), 3);
    assert_eq!(effective_detail(3, false, true), 4);
    assert_eq!(effective_detail(3, true, false), 0);
    assert_eq!(effective_detail(3, true, true), 1);
    assert_eq!(effective_detail(u32::MAX, false, true), u32::MAX);
}

#[test]
fn image_offsets_select_a_window() {
    assert_eq!(parse_image_offset("auto"), Ok(None));
    assert_eq!(parse_image_offset("17"), Ok(Some(17)));
    assert_eq!(
        parse_image_offset("x"),
        Err("--image-offset must be `auto` or a byte offset: x".to_string())
    );
    assert_eq!(image_window(None, None, 100), None);
    assert_eq!(image_window(Some(10), None, 100), Some((10, 90)));
    assert_eq!(image_window(Some(110), None, 100), Some((110, 0)));
    assert_eq!(image_window(None, Some(40), 100), Some((0, 40)));
}
