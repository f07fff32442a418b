//! Tests for the format model: line classification and trimming.

use p8parts::format::{is_code_marker, is_scissor, lua_tag, make_canonical_kinds, make_default_version_token, make_header_title_line, make_scissor_line, make_tag_line, parse_version, rsc_tag, trim_copy};

fn b(s: &str) -> Vec<u8> {
    s.as_bytes().to_vec()
}

#[test]
fn tag_recognizes_gfx() {
    assert_eq!(rsc_tag(&b("__gfx__")), Some(b("gfx")));
}

#[test]
fn tag_rejects_dot_and_space() {
    assert_eq!(rsc_tag(&b("__a.b__")), None);
    assert_eq!(rsc_tag(&b("__a b__")), None);
    assert_eq!(rsc_tag(&b("__a=b__")), None);
}

#[test]
fn tag_needs_delimiters_and_length() {
    assert_eq!(rsc_tag(&b("____")), None);
    assert_eq!(rsc_tag(&b("__x__")), Some(b("x")));
    assert_eq!(rsc_tag(&b("_gfx__")), None);
    assert_eq!(rsc_tag(&b("__gfx_")), None);
    assert_eq!(rsc_tag(&b("gfx")), None);
    assert_eq!(rsc_tag(&b("")), None);
}

#[test]
fn tag_accepts_unusual_kinds() {
    assert_eq!(rsc_tag(&b("__lua__")), Some(b("lua")));
    assert_eq!(rsc_tag(&b("___x___")), Some(b("_x_")));
}

#[test]
fn name_comment_basic() {
    assert_eq!(lua_tag(&b("-- splash screen")), Some(b("splash screen")));
    assert_eq!(lua_tag(&b("--boot")), Some(b("boot")));
    assert_eq!(lua_tag(&b("--  padded  ")), Some(b("padded")));
}

#[test]
fn name_comment_rejects_empty() {
    assert_eq!(lua_tag(&b("--")), None);
    assert_eq!(lua_tag(&b("-- ")), None);
    assert_eq!(lua_tag(&b("--\t")), None);
    assert_eq!(lua_tag(&b("x--name")), None);
    assert_eq!(lua_tag(&b("")), None);
}

#[test]
fn scissor_reads_as_a_name_comment() {
    // The scissor token begins with the comment marker, so in name position
    // it names `>8`.
    assert_eq!(lua_tag(&b("-->8")), Some(b(">8")));
}

#[test]
fn scissor_and_marker_exact_match() {
    assert!(is_scissor(&b("-->8")));
    assert!(!is_scissor(&b("-->8 ")));
    assert!(!is_scissor(&b("->8")));
    assert!(is_code_marker(&b("__lua__")));
    assert!(!is_code_marker(&b("__lua___")));
}

#[test]
fn version_line_parsing() {
    assert_eq!(parse_version(&b("version 41")), Some(b("41")));
    assert_eq!(parse_version(&b("version 41 beta")), Some(b("41 beta")));
    assert_eq!(parse_version(&b("versions 9")), Some(b("9")));
    assert_eq!(parse_version(&b("version41")), None);
    assert_eq!(parse_version(&b("ver sion")), None);
}

#[test]
fn trim_copy_strips_ascii_whitespace() {
    assert_eq!(trim_copy(&b("  hi there\t"), 0), b("hi there"));
    assert_eq!(trim_copy(&b("xyhello"), 2), b("hello"));
    assert_eq!(trim_copy(&b("   "), 0), b(""));
    assert_eq!(trim_copy(&b(""), 0), b(""));
}

#[test]
fn reserved_tokens_are_exact() {
    assert_eq!(make_scissor_line(), b("-->8"));
    assert_eq!(make_header_title_line(), b("pico-8 cartridge // http://www.pico-8.com"));
    assert_eq!(make_default_version_token(), b("41"));
    assert_eq!(make_tag_line(&b("gfx")), b("__gfx__"));
    let kinds: Vec<Vec<u8>> = make_canonical_kinds();
    let want: Vec<Vec<u8>> = vec![b("gfx"), b("gff"), b("label"), b("map"), b("sfx"), b("music")];
    assert_eq!(kinds, want);
}
