use tanks_arena::environment::Tile;
use tanks_arena::map::{parse_environments_file, parse_environments_text, split_lines};

fn chars(s: &str) -> Vec<char> {
    s.chars().collect()
}

#[test]
fn parses_named_map() {
    let maps = parse_environments_file(b"@first\nx1\n69\n@\n").unwrap();
    assert_eq!(maps.len(), 1);
    assert_eq!(maps[0].name, "first");
    let env = &maps[0].environment;
    assert_eq!(env.get_tile(1, 0), Some(Tile::Empty));
    assert_eq!(env.get_tile(1, 1), Some(Tile::IndestructibleWall { elevation: 1 }));
    assert_eq!(env.get_tile(2, 0), Some(Tile::DestructibleWall { health: 3, elevation: 1 }));
    assert_eq!(env.get_tile(2, 1), Some(Tile::DestructibleWall { health: 3, elevation: 4 }));
    assert_eq!(env.get_tile(0, 0), None);
    assert_eq!(env.get_tile(3, 0), None);
    assert_eq!(env.tiles.len(), 4);
}

#[test]
fn invalid_utf8_is_refused() {
    assert!(parse_environments_file(&[b'@', 0xff, b'\n']).is_err());
}

#[test]
fn several_maps_and_ignored_text() {
    let text = chars("junk 123\n@a\n.5.\n@\nmore\n@b\r\n..x\r\n@\r\n@open\n1\n");
    let maps = parse_environments_text(&text);
    assert_eq!(maps.len(), 2);
    assert_eq!(maps[0].name, "a");
    assert_eq!(maps[0].environment.get_tile(1, 1), Some(Tile::IndestructibleWall { elevation: 5 }));
    assert_eq!(maps[0].environment.tiles.len(), 1);
    assert_eq!(maps[1].name, "b");
    assert_eq!(maps[1].environment.get_tile(1, 2), Some(Tile::Empty));
    assert_eq!(maps[1].environment.tiles.len(), 1);
}

#[test]
fn later_map_replaces_same_name() {
    let maps = parse_environments_text(&chars("@m\n1\n@\n@m\n.2\n@\n"));
    assert_eq!(maps.len(), 1);
    assert_eq!(maps[0].environment.get_tile(1, 0), None);
    assert_eq!(maps[0].environment.get_tile(1, 1), Some(Tile::IndestructibleWall { elevation: 2 }));
}

#[test]
fn empty_text_has_no_maps() {
    assert!(parse_environments_text(&Vec::new()).is_empty());
}

#[test]
fn lines_split_like_str_lines() {
    let cases = ["", "a", "a\n", "a\r\nb", "\n\n", "a\r", "x\r\n\r\n"];
    for case in cases {
        let got: Vec<String> = split_lines(&chars(case)).into_iter().map(|l| l.into_iter().collect()).collect();
        let want: Vec<String> = case.lines().map(|l| l.to_string()).collect();
        assert_eq!(got, want, "{:?}", case);
    }
}

#[test]
fn tiles_far_out_in_the_grid_are_kept() {
    let mut text = String::from("@wide\n");
    text.push_str(&".".repeat(1_000_000));
    text.push_str("7\n@\n");
    let maps = parse_environments_file(text.as_bytes()).unwrap();
    assert_eq!(
        maps[0].environment.get_tile(1, 1_000_000),
        Some(Tile::DestructibleWall { health: 3, elevation: 2 })
    );
    assert_eq!(maps[0].environment.tiles.len(), 1);
}
