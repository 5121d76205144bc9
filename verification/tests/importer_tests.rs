//! Height-map import: tokenization and parsing.

use slana::grid::Grid;
use slana::importer::{terrain_from_pgm, Context, ParseError, SkipWhitespace};

fn collect_tokens(s: &str) -> Vec<String> {
    let mut iter = SkipWhitespace::new(s);
    let mut out = Vec::new();
    while let Some(t) = iter.next() {
        out.push(t);
    }
    out
}

#[test]
fn test_iterator() {
    let s = "s\ns2\n s3\n#do not read\ns4";
    let s_v: Vec<String> = collect_tokens(s);
    assert_eq!(s_v, vec!["s", "s2", "s3", "s4"]);
}

#[test]
fn test_iterator_spaces() {
    let s = "s1\n    s2";
    let s_v: Vec<String> = collect_tokens(s);
    assert_eq!(s_v, vec!["s1", "s2"]);
}

#[test]
fn test_iterator_pgm() {
    let s = "P2
    1 1
    10000
    10
            ";
    let s_v: Vec<String> = collect_tokens(s);
    assert_eq!(s_v, vec!["P2", "1", "1", "10000", "10"]);
}

#[test]
fn test_pgm_comment() {
    let s = "P2
    1 1
    #hello!
    10000
    10000
            ";
    let s_v: Vec<String> = collect_tokens(s);
    assert_eq!(s_v, vec!["P2", "1", "1", "10000", "10000"]);
}

#[test]
fn basic_terrain() {
    let terrain: Grid<u32> = terrain_from_pgm(
        "P2
    1 1
    10000
    10000
            "
        .to_string(),
    )
    .expect("failed to parse");
    assert_eq!(terrain.size(), (1, 1));
    assert_eq!(*terrain.get(0, 0), 10_000);
}

#[test]
fn comment() {
    let terrain: Grid<u32> = terrain_from_pgm(
        "P2
    1 1
    #hello!
    10000
    10000
            "
        .to_string(),
    )
    .expect("failed to parse");
    assert_eq!(terrain.size(), (1, 1));
    assert_eq!(*terrain.get(0, 0), 10_000);
}

#[test]
fn comment_at_end_of_input_terminates() {
    let s = "a#comment with no newline";
    let s_v: Vec<String> = collect_tokens(s);
    assert_eq!(s_v, vec!["a"]);
}

#[test]
fn empty_file_is_rejected() {
    assert_eq!(
        terrain_from_pgm("".to_string()).unwrap_err(),
        ParseError::EmptyFile
    );
    assert_eq!(
        terrain_from_pgm("  \n\t #only a comment\n".to_string()).unwrap_err(),
        ParseError::EmptyFile
    );
}

#[test]
fn wrong_magic_is_rejected() {
    assert_eq!(
        terrain_from_pgm("P3\n1 1\n10\n10\n".to_string()).unwrap_err(),
        ParseError::InvalidMagicNumber("P3".to_string())
    );
}

#[test]
fn missing_header_fields_are_rejected() {
    assert_eq!(
        terrain_from_pgm("P2".to_string()).unwrap_err(),
        ParseError::MissingXDimension
    );
    assert_eq!(
        terrain_from_pgm("P2\n1".to_string()).unwrap_err(),
        ParseError::MissingYDimension
    );
    assert_eq!(
        terrain_from_pgm("P2\n1 1".to_string()).unwrap_err(),
        ParseError::MissingMaxHeight
    );
    assert_eq!(
        terrain_from_pgm("P2\n2 2\n100\n1 2 3".to_string()).unwrap_err(),
        ParseError::MissingDatapoint
    );
}

#[test]
fn bad_numbers_are_rejected_with_their_context() {
    assert_eq!(
        terrain_from_pgm("P2\nx 1\n10\n10\n".to_string()).unwrap_err(),
        ParseError::InvalidNumber {
            context: Context::XDimension,
            error: "x".to_string()
        }
    );
    assert_eq!(
        terrain_from_pgm("P2\n1 y\n10\n10\n".to_string()).unwrap_err(),
        ParseError::InvalidNumber {
            context: Context::YDimension,
            error: "y".to_string()
        }
    );
    assert_eq!(
        terrain_from_pgm("P2\n1 1\nmax\n10\n".to_string()).unwrap_err(),
        ParseError::InvalidNumber {
            context: Context::MaxHeight,
            error: "max".to_string()
        }
    );
    assert_eq!(
        terrain_from_pgm("P2\n1 1\n10\nhigh\n".to_string()).unwrap_err(),
        ParseError::InvalidNumber {
            context: Context::Height,
            error: "high".to_string()
        }
    );
}

#[test]
fn oversized_dimension_is_rejected() {
    // Dimensions beyond the 32-bit coordinate space cannot be addressed.
    assert_eq!(
        terrain_from_pgm("P2\n4294967296 1\n10\n10\n".to_string()).unwrap_err(),
        ParseError::InvalidNumber {
            context: Context::XDimension,
            error: "4294967296".to_string()
        }
    );
}

#[test]
fn wider_map_parses_row_major() {
    let terrain: Grid<u32> = terrain_from_pgm("P2\n2 3\n9\n1 2 3 4 5 6\n".to_string())
        .expect("well-formed map");
    assert_eq!(terrain.size(), (2, 3));
    // values fill x-major: cell (x, y) holds the (x * dim_y + y)-th value
    assert_eq!(*terrain.get(0, 0), 1);
    assert_eq!(*terrain.get(0, 2), 3);
    assert_eq!(*terrain.get(1, 0), 4);
    assert_eq!(*terrain.get(1, 2), 6);
}
