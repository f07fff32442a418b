//! Tests for the joiner: ordering, scissor placement, and record fallback.

use p8parts::joiner::build_composite;
use p8parts::part::Part;

fn b(s: &str) -> Vec<u8> {
    s.as_bytes().to_vec()
}

fn doc(lines: &[&str]) -> Vec<Vec<u8>> {
    lines.iter().map(|l| b(l)).collect()
}

fn part(key: &str, lines: &[&str]) -> Part {
    Part { key: b(key), lines: doc(lines) }
}

#[test]
fn join_follows_order_record_not_discovery_order() {
    // Discovered in the order C, A, B; the record says A, B, C.
    let segments = vec![
        part("c", &["-- c", "3"]),
        part("a", &["-- a", "1"]),
        part("b", &["-- b", "2"]),
    ];
    let out = build_composite(segments, Vec::new(), &b("a\nb\nc\n"), &b(""), &b("41"));
    let want = doc(&[
        "pico-8 cartridge // http://www.pico-8.com",
        "version 41",
        "__lua__",
        "-- a",
        "1",
        "-->8",
        "-- b",
        "2",
        "-->8",
        "-- c",
        "3",
    ]);
    assert_eq!(out, want);
}

#[test]
fn join_scissor_count_is_parts_minus_one() {
    let segments = vec![
        part("a", &["-- a", "1"]),
        part("b", &["-- b", "2"]),
        part("c", &["-- c", "3"]),
    ];
    let out = build_composite(segments, Vec::new(), &b("a\nb\nc\n"), &b(""), &b("41"));
    let scissors = out.iter().filter(|l| l.as_slice() == b"-->8").count();
    assert_eq!(scissors, 2);
    assert_ne!(out[3], b("-->8"));
    assert_ne!(out[out.len() - 1], b("-->8"));
}

#[test]
fn join_single_segment_has_no_scissor() {
    let segments = vec![part("a", &["-- a", "1"])];
    let out = build_composite(segments, Vec::new(), &b("a\n"), &b(""), &b("41"));
    assert_eq!(out.iter().filter(|l| l.as_slice() == b"-->8").count(), 0);
}

#[test]
fn join_falls_back_to_canonical_resource_order() {
    // Resource kinds {sound, graphics} with no order record: graphics
    // comes out before sound.
    let resources = vec![part("sfx", &["0505"]), part("gfx", &["0011"])];
    let segments = vec![part("a", &["-- a", "1"])];
    let out = build_composite(segments, resources, &b("a\n"), &b(""), &b("41"));
    let want = doc(&[
        "pico-8 cartridge // http://www.pico-8.com",
        "version 41",
        "__lua__",
        "-- a",
        "1",
        "__gfx__",
        "0011",
        "__sfx__",
        "0505",
    ]);
    assert_eq!(out, want);
}

#[test]
fn join_skips_stale_record_entries() {
    let segments = vec![part("a", &["-- a", "1"])];
    let out = build_composite(segments, Vec::new(), &b("gone\na\nalso-gone\n"), &b(""), &b("41"));
    let want = doc(&[
        "pico-8 cartridge // http://www.pico-8.com",
        "version 41",
        "__lua__",
        "-- a",
        "1",
    ]);
    assert_eq!(out, want);
}

#[test]
fn join_appends_unmentioned_parts_in_given_order() {
    let segments = vec![
        part("a", &["-- a", "1"]),
        part("z", &["-- z", "9"]),
        part("m", &["-- m", "5"]),
    ];
    // Only `a` is in the record; `z` and `m` follow in the order handed in.
    let out = build_composite(segments, Vec::new(), &b("a\n"), &b(""), &b("41"));
    let want = doc(&[
        "pico-8 cartridge // http://www.pico-8.com",
        "version 41",
        "__lua__",
        "-- a",
        "1",
        "-->8",
        "-- z",
        "9",
        "-->8",
        "-- m",
        "5",
    ]);
    assert_eq!(out, want);
}

#[test]
fn join_uses_version_record_trimmed() {
    let segments = vec![part("a", &["-- a"])];
    let out = build_composite(segments, Vec::new(), &b("a\n"), &b(""), &b(" 39 \n"));
    assert_eq!(out[1], b("version 39"));
}

#[test]
fn join_defaults_blank_version_record() {
    let segments = vec![part("a", &["-- a"])];
    let out = build_composite(segments, Vec::new(), &b("a\n"), &b(""), &b("  \n"));
    assert_eq!(out[1], b("version 41"));
}

#[test]
fn join_unknown_kind_comes_after_canonical_ones() {
    let resources = vec![part("custom", &["zz"]), part("map", &["2233"])];
    let segments = vec![part("a", &["-- a"])];
    let out = build_composite(segments, resources, &b("a\n"), &b(""), &b("41"));
    let want = doc(&[
        "pico-8 cartridge // http://www.pico-8.com",
        "version 41",
        "__lua__",
        "-- a",
        "__map__",
        "2233",
        "__custom__",
        "zz",
    ]);
    assert_eq!(out, want);
}
