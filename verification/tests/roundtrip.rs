//! Round-trip tests: split, rejoin with the produced records, split again,
//! and compare parts byte for byte.

use p8parts::joiner::build_composite;
use p8parts::splitter::split_composite;
use p8parts::textlines::{render_lines, split_lines};

fn b(s: &str) -> Vec<u8> {
    s.as_bytes().to_vec()
}

fn doc(lines: &[&str]) -> Vec<Vec<u8>> {
    lines.iter().map(|l| b(l)).collect()
}

fn rejoin(input: &Vec<Vec<u8>>) -> Vec<Vec<u8>> {
    let out = split_composite(input).unwrap();
    let tab = render_lines(&out.tab_order());
    let rsc = render_lines(&out.rsc_order());
    let version = out.version.clone().unwrap_or_default();
    build_composite(out.segments, out.resources, &tab, &rsc, &version)
}

#[test]
fn round_trip_is_stable() {
    let input = doc(&[
        "pico-8 cartridge // http://www.pico-8.com",
        "version 41",
        "__lua__",
        "-- boot",
        "x=1",
        "",
        "-->8",
        "-- game",
        "y=2",
        "__gfx__",
        "0011",
        "__sfx__",
        "0505",
    ]);
    let joined = rejoin(&input);
    assert_eq!(joined, input);
    let first = split_composite(&input).unwrap();
    let second = split_composite(&joined).unwrap();
    assert_eq!(first.segments.len(), second.segments.len());
    for (a, c) in first.segments.iter().zip(second.segments.iter()) {
        assert_eq!(a.key, c.key);
        assert_eq!(a.lines, c.lines);
    }
    for (a, c) in first.resources.iter().zip(second.resources.iter()) {
        assert_eq!(a.key, c.key);
        assert_eq!(a.lines, c.lines);
    }
}

#[test]
fn unnamed_segment_name_is_stable_across_round_trips() {
    // The second segment has no name comment: the first split synthesizes
    // a placeholder and writes the comment, so a second split derives the
    // same name instead of renumbering.
    let input = doc(&["__lua__", "-- boot", "x=1", "-->8", "y=2"]);
    let first = split_composite(&input).unwrap();
    assert_eq!(first.segments[1].key, b("unknown-01"));
    let joined = rejoin(&input);
    let second = split_composite(&joined).unwrap();
    assert_eq!(second.segments[1].key, b("unknown-01"));
    assert_eq!(second.segments[1].lines, first.segments[1].lines);
    // And the rejoined output now round-trips exactly.
    assert_eq!(rejoin(&joined), joined);
}

#[test]
fn round_trip_through_bytes() {
    let text = b"pico-8 cartridge // http://www.pico-8.com\nversion 41\n__lua__\n-- a\nprint(1)\n__gfx__\n0011\n".to_vec();
    let lines = split_lines(&text);
    let joined = rejoin(&lines);
    assert_eq!(render_lines(&joined), text);
}

#[test]
fn line_discipline_normalizes_endings() {
    // Carriage returns before newlines are dropped and a missing final
    // newline is tolerated; output is newline-terminated throughout.
    let text = b"__lua__\r\n-- a\r\nx=1".to_vec();
    let lines = split_lines(&text);
    assert_eq!(lines, doc(&["__lua__", "-- a", "x=1"]));
    assert_eq!(render_lines(&lines), b"__lua__\n-- a\nx=1\n".to_vec());
}

#[test]
fn split_lines_edge_cases() {
    assert_eq!(split_lines(&b("")), Vec::<Vec<u8>>::new());
    assert_eq!(split_lines(&b("\n")), doc(&[""]));
    assert_eq!(split_lines(&b("a\n\nb")), doc(&["a", "", "b"]));
    // Only one carriage return is stripped, and only before a newline.
    assert_eq!(split_lines(&b("a\r\r\n")), vec![b("a\r")]);
    assert_eq!(split_lines(&b("a\rb\n")), vec![b("a\rb")]);
}
