//! Tests for the splitter state machine.

use p8parts::splitter::{split_composite, SplitError};

fn b(s: &str) -> Vec<u8> {
    s.as_bytes().to_vec()
}

fn doc(lines: &[&str]) -> Vec<Vec<u8>> {
    lines.iter().map(|l| b(l)).collect()
}

#[test]
fn split_two_named_segments_and_resources() {
    let input = doc(&[
        "pico-8 cartridge // http://www.pico-8.com",
        "version 41",
        "__lua__",
        "-- boot",
        "x=1",
        "-->8",
        "-- game",
        "y=2",
        "__gfx__",
        "0011",
        "__map__",
        "2233",
    ]);
    let out = split_composite(&input).unwrap();
    assert_eq!(out.version, Some(b("41")));
    assert_eq!(out.segments.len(), 2);
    assert_eq!(out.segments[0].key, b("boot"));
    assert_eq!(out.segments[0].lines, doc(&["-- boot", "x=1"]));
    assert_eq!(out.segments[1].key, b("game"));
    assert_eq!(out.segments[1].lines, doc(&["-- game", "y=2"]));
    assert_eq!(out.resources.len(), 2);
    assert_eq!(out.resources[0].key, b("gfx"));
    assert_eq!(out.resources[0].lines, doc(&["0011"]));
    assert_eq!(out.resources[1].key, b("map"));
    assert_eq!(out.resources[1].lines, doc(&["2233"]));
    assert_eq!(out.tab_order(), vec![b("boot"), b("game")]);
    assert_eq!(out.rsc_order(), vec![b("gfx"), b("map")]);
}

#[test]
fn split_synthesizes_placeholder_names() {
    let input = doc(&["__lua__", "x=1", "-->8", "y=2"]);
    let out = split_composite(&input).unwrap();
    assert_eq!(out.segments.len(), 2);
    assert_eq!(out.segments[0].key, b("unknown-00"));
    assert_eq!(out.segments[0].lines, doc(&["-- unknown-00", "x=1"]));
    assert_eq!(out.segments[1].key, b("unknown-01"));
    assert_eq!(out.segments[1].lines, doc(&["-- unknown-01", "y=2"]));
    assert_eq!(out.version, None);
}

#[test]
fn split_resolves_name_collisions() {
    let input = doc(&["__lua__", "-- main", "a", "-->8", "-- main", "b"]);
    let out = split_composite(&input).unwrap();
    assert_eq!(out.segments[0].key, b("main"));
    assert_eq!(out.segments[1].key, b("main-again"));
    // The colliding segment's stored first line keeps the original comment.
    assert_eq!(out.segments[1].lines, doc(&["-- main", "b"]));
}

#[test]
fn split_rejects_missing_marker() {
    let input = doc(&["pico-8 cartridge // http://www.pico-8.com", "version 41"]);
    assert_eq!(split_composite(&input).unwrap_err(), SplitError::MissingCodeMarker);
    let empty: Vec<Vec<u8>> = Vec::new();
    assert_eq!(split_composite(&empty).unwrap_err(), SplitError::MissingCodeMarker);
}

#[test]
fn split_rejects_truncation_at_segment_start() {
    let input = doc(&["__lua__"]);
    assert_eq!(split_composite(&input).unwrap_err(), SplitError::TruncatedAtSegmentStart);
    let input = doc(&["__lua__", "-- a", "x", "-->8"]);
    assert_eq!(split_composite(&input).unwrap_err(), SplitError::TruncatedAtSegmentStart);
}

#[test]
fn split_rejects_truncation_at_resource_tag() {
    // A composite ending immediately after a resource tag line is rejected
    // as malformed, not accepted as an empty resource block.
    let input = doc(&["__lua__", "-- a", "x", "__gfx__"]);
    assert_eq!(split_composite(&input).unwrap_err(), SplitError::TruncatedAtResourceStart);
    let input = doc(&["__lua__", "-- a", "x", "__gfx__", "00", "__map__"]);
    assert_eq!(split_composite(&input).unwrap_err(), SplitError::TruncatedAtResourceStart);
}

#[test]
fn split_treats_malformed_tags_as_content() {
    let input = doc(&["__lua__", "-- a", "__a.b__", "__a b__", "__gfx__", "00"]);
    let out = split_composite(&input).unwrap();
    assert_eq!(out.segments.len(), 1);
    assert_eq!(out.segments[0].lines, doc(&["-- a", "__a.b__", "__a b__"]));
    assert_eq!(out.resources.len(), 1);
    assert_eq!(out.resources[0].key, b("gfx"));
}

#[test]
fn split_keeps_last_version_line() {
    let input = doc(&["version 40", "version 41", "__lua__", "-- a", "x"]);
    let out = split_composite(&input).unwrap();
    assert_eq!(out.version, Some(b("41")));
}

#[test]
fn split_line_after_tag_is_body_even_if_tag_shaped() {
    // The line right after a tag is consumed as the block's first body
    // line without inspection.
    let input = doc(&["__lua__", "-- a", "x", "__gfx__", "__map__", "00"]);
    let out = split_composite(&input).unwrap();
    assert_eq!(out.resources.len(), 1);
    assert_eq!(out.resources[0].key, b("gfx"));
    assert_eq!(out.resources[0].lines, doc(&["__map__", "00"]));
}
