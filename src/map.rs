//! The map definition format.
//!
//! A file holds any number of named maps. A line starting with `@` opens a
//! map, the rest of the line being its name; the next such line closes it.
//! Body lines are a character grid: `1`..`5` is an indestructible wall of that
//! elevation, `6`..`9` a destructible wall of elevation one to four, `x` empty
//! floor, and any other character nothing. The first body line is row one;
//! columns count characters from zero.
use vstd::prelude::*;
use vstd::utf8::{decode_utf8, valid_utf8};

use crate::environment::{tile_at, Environment, Tile};

verus! {

#[verifier::external_type_specification]
#[verifier::external_body]
pub struct ExUtf8Error(std::str::Utf8Error);

/// Character that opens and closes a map.
pub const MAP_DELIMITER: char = '@';

/// Health of a destructible wall when the map is loaded.
pub const WALL_HEALTH: u32 = 3;

/// A named map.
#[derive(Debug)]
pub struct MapData {
    pub name: String,
    pub environment: Environment,
}

/// Lines split at each `\n`; the last one is the unterminated rest.
pub open spec fn raw_lines(t: Seq<char>) -> Seq<Seq<char>>
    decreases t.len(),
{
    if t.len() == 0 {
        seq![Seq::empty()]
    } else {
        let ls = raw_lines(t.drop_last());
        if t.last() == '\n' {
            ls.push(Seq::empty())
        } else {
            ls.update(ls.len() - 1, ls.last().push(t.last()))
        }
    }
}

pub open spec fn strip_cr(l: Seq<char>) -> Seq<char> {
    if l.len() > 0 && l.last() == '\r' {
        l.drop_last()
    } else {
        l
    }
}

/// The lines of a text as `str::lines` gives them: split at `\n` or `\r\n`,
/// with no empty line after a final line ending.
pub open spec fn lines_of(t: Seq<char>) -> Seq<Seq<char>> {
    let ls = raw_lines(t);
    let ended = ls.drop_last().map_values(|l: Seq<char>| strip_cr(l));
    if ls.last().len() == 0 {
        ended
    } else {
        ended.push(ls.last())
    }
}

pub open spec fn tile_of_char(c: char) -> Option<Tile> {
    if '1' <= c && c <= '5' {
        Some(Tile::IndestructibleWall { elevation: (c as u32 - '0' as u32) as u32 })
    } else if '6' <= c && c <= '9' {
        Some(Tile::DestructibleWall { health: WALL_HEALTH, elevation: (c as u32 - '5' as u32) as u32 })
    } else if c == 'x' {
        Some(Tile::Empty)
    } else {
        None
    }
}

/// The tile that body line `line`, at row `r`, puts in column `c`.
pub open spec fn row_tile(line: Seq<char>, r: int, c: int) -> Option<Tile> {
    if 0 <= c < line.len() {
        tile_of_char(line[c])
    } else {
        None
    }
}

/// The tile at `(r, c)` of a map whose body lines are `body`.
pub open spec fn grid_tile(body: Seq<Seq<char>>, r: int, c: int) -> Option<Tile> {
    if 1 <= r <= body.len() {
        row_tile(body[r - 1], r, c)
    } else {
        None
    }
}

pub open spec fn is_delimiter_line(l: Seq<char>) -> bool {
    l.len() > 0 && l[0] == MAP_DELIMITER
}

/// Maps read so far, with a name and body lines each.
pub struct MapScan {
    pub maps: Seq<(Seq<char>, Seq<Seq<char>>)>,
    pub reading: bool,
    pub name: Seq<char>,
    pub body: Seq<Seq<char>>,
}

pub open spec fn has_map(maps: Seq<(Seq<char>, Seq<Seq<char>>)>, name: Seq<char>) -> bool {
    exists|i: int| 0 <= i < maps.len() && (#[trigger] maps[i]).0 == name
}

pub open spec fn map_index(maps: Seq<(Seq<char>, Seq<Seq<char>>)>, name: Seq<char>) -> int {
    choose|i: int| 0 <= i < maps.len() && (#[trigger] maps[i]).0 == name
}

/// A closed map is added; a later map of the same name replaces an earlier one.
pub open spec fn put_map(
    maps: Seq<(Seq<char>, Seq<Seq<char>>)>,
    name: Seq<char>,
    body: Seq<Seq<char>>,
) -> Seq<(Seq<char>, Seq<Seq<char>>)> {
    if has_map(maps, name) {
        maps.update(map_index(maps, name), (name, body))
    } else {
        maps.push((name, body))
    }
}

/// Reading the lines in order. Lines outside a map are ignored, as is a map
/// that is never closed.
pub open spec fn scan(lines: Seq<Seq<char>>) -> MapScan
    decreases lines.len(),
{
    if lines.len() == 0 {
        MapScan { maps: Seq::empty(), reading: false, name: Seq::empty(), body: Seq::empty() }
    } else {
        let s = scan(lines.drop_last());
        let l = lines.last();
        if is_delimiter_line(l) {
            if s.reading {
                MapScan { maps: put_map(s.maps, s.name, s.body), reading: false, name: Seq::empty(), body: Seq::empty() }
            } else {
                MapScan { reading: true, name: l.subrange(1, l.len() as int), body: Seq::empty(), ..s }
            }
        } else if s.reading {
            MapScan { body: s.body.push(l), ..s }
        } else {
            s
        }
    }
}

/// The maps of a text.
pub open spec fn maps_of(text: Seq<char>) -> Seq<(Seq<char>, Seq<Seq<char>>)> {
    scan(lines_of(text)).maps
}

/// An environment holds exactly the tiles that the body lines describe.
pub open spec fn env_matches(env: Seq<crate::environment::PlacedTile>, body: Seq<Seq<char>>) -> bool {
    forall|r: int, c: int| #[trigger] tile_at(env, r, c) == grid_tile(body, r, c)
}

pub open spec fn names_unique(maps: Seq<(Seq<char>, Seq<Seq<char>>)>) -> bool {
    forall|i: int, j: int| 0 <= i < maps.len() && 0 <= j < maps.len() && i != j ==> (#[trigger] maps[i]).0 != (#[trigger] maps[j]).0
}

/// The parsed maps are the described ones, in order: same names, same tiles.
pub open spec fn maps_match(ms: Seq<MapData>, spec: Seq<(Seq<char>, Seq<Seq<char>>)>) -> bool {
    &&& ms.len() == spec.len()
    &&& forall|i: int| 0 <= i < ms.len() ==> (#[trigger] ms[i]).name@ == spec[i].0
    &&& forall|i: int| 0 <= i < ms.len() ==> env_matches((#[trigger] ms[i]).environment@, spec[i].1)
    &&& forall|i: int| 0 <= i < ms.len() ==> (#[trigger] ms[i]).environment.wf()
}

pub open spec fn lines_view(ls: Seq<Vec<char>>) -> Seq<Seq<char>> {
    ls.map_values(|l: Vec<char>| l@)
}

/// Relies on `std::str::from_utf8`, which succeeds exactly on valid UTF-8,
/// and on `str::chars`, which yields the decoded characters in order.
#[verifier::external_body]
fn decode_text(bytes: &[u8]) -> (r: Result<Vec<char>, std::str::Utf8Error>)
    ensures
        r is Ok <==> valid_utf8(bytes@),
        r matches Ok(cs) ==> cs@ == decode_utf8(bytes@),
{
    match std::str::from_utf8(bytes) {
        Ok(s) => Ok(s.chars().collect()),
        Err(e) => Err(e),
    }
}

/// Relies on `String`'s `FromIterator<char>`: the string holds the characters in order.
#[verifier::external_body]
fn string_of(chars: &Vec<char>) -> (r: String)
    ensures
        r@ == chars@,
{
    chars.iter().collect()
}

/// Splits a text into lines as `str::lines` does.
pub fn split_lines(text: &Vec<char>) -> (r: Vec<Vec<char>>)
    ensures
        lines_view(r@) == lines_of(text@),
{
    let mut lines: Vec<Vec<char>> = Vec::new();
    let mut cur: Vec<char> = Vec::new();
    let ghost mut done: Seq<Seq<char>> = Seq::empty();
    let mut p: usize = 0;
    while p < text.len()
        invariant
            p <= text@.len(),
            raw_lines(text@.subrange(0, p as int)) == done.push(cur@),
            lines_view(lines@) == done.map_values(|l: Seq<char>| strip_cr(l)),
        decreases text@.len() - p,
    {
        proof {
            assert(text@.subrange(0, p + 1).drop_last() =~= text@.subrange(0, p as int));
        }
        let c = text[p];
        if c == '\n' {
            let mut ended = cur;
            if ended.len() > 0 && ended[ended.len() - 1] == '\r' {
                ended.pop();
            }
            let ghost e = ended@;
            let ghost prev = lines@;
            proof {
                assert(e == strip_cr(done.push(cur@).last()));
            }
            lines.push(ended);
            proof {
                assert(lines@ == prev.push(ended));
                assert(lines_view(lines@) =~= lines_view(prev).push(e));
                assert(lines_view(lines@) =~= done.push(cur@).map_values(|l: Seq<char>| strip_cr(l)));
                done = done.push(cur@);
            }
            cur = Vec::new();
            proof {
                assert(raw_lines(text@.subrange(0, p + 1)) =~= done.push(cur@));
            }
        } else {
            let ghost before = cur@;
            cur.push(c);
            proof {
                assert(raw_lines(text@.subrange(0, p + 1)) =~= done.push(before).update(done.len() as int, before.push(c)));
                assert(done.push(before).update(done.len() as int, before.push(c)) =~= done.push(cur@));
            }
        }
        p = p + 1;
    }
    proof {
        assert(text@.subrange(0, text@.len() as int) =~= text@);
        assert(done.push(cur@).drop_last() =~= done);
    }
    if cur.len() > 0 {
        lines.push(cur);
        proof {
            assert(lines_view(lines@) =~= done.map_values(|l: Seq<char>| strip_cr(l)).push(cur@));
        }
    }
    lines
}

fn tile_of_char_exec(c: char) -> (r: Option<Tile>)
    ensures
        r == tile_of_char(c),
{
    if '1' <= c && c <= '5' {
        Some(Tile::IndestructibleWall { elevation: (c as u32) - ('0' as u32) })
    } else if '6' <= c && c <= '9' {
        Some(Tile::DestructibleWall { health: WALL_HEALTH, elevation: (c as u32) - ('5' as u32) })
    } else if c == 'x' {
        Some(Tile::Empty)
    } else {
        None
    }
}

/// Places the tiles of body line `line` in row `row`, which was empty.
fn add_row(env: &mut Environment, line: &Vec<char>, row: usize)
    requires
        old(env).wf(),
        forall|c: int| #[trigger] tile_at(old(env)@, row as int, c) == None::<Tile>,
    ensures
        final(env).wf(),
        forall|r: int, c: int| #[trigger] tile_at(final(env)@, r, c) == if r == row {
            row_tile(line@, r, c)
        } else {
            tile_at(old(env)@, r, c)
        },
{
    let mut j: usize = 0;
    while j < line.len()
        invariant
            j <= line@.len(),
            env.wf(),
            forall|r: int, c: int| #[trigger] tile_at(env@, r, c) == if r == row {
                if c < j { row_tile(line@, r, c) } else { None }
            } else {
                tile_at(old(env)@, r, c)
            },
        decreases line@.len() - j,
    {
        match tile_of_char_exec(line[j]) {
            Some(t) => {
                env.insert_tile(row, j, t);
            },
            None => {},
        }
        j = j + 1;
    }
}

/// Records a closed map, replacing an earlier one of the same name.
fn put_map_exec(
    maps: &mut Vec<MapData>,
    name: String,
    environment: Environment,
    Ghost(spec): Ghost<Seq<(Seq<char>, Seq<Seq<char>>)>>,
    Ghost(body): Ghost<Seq<Seq<char>>>,
)
    requires
        maps_match(old(maps)@, spec),
        names_unique(spec),
        env_matches(environment@, body),
        environment.wf(),
    ensures
        maps_match(final(maps)@, put_map(spec, name@, body)),
        names_unique(put_map(spec, name@, body)),
{
    let mut i: usize = 0;
    while i < maps.len()
        invariant
            i <= maps@.len(),
            maps_match(maps@, spec),
            maps@ == old(maps)@,
            names_unique(spec),
            environment.wf(),
            env_matches(environment@, body),
            forall|k: int| 0 <= k < i ==> spec[k].0 != name@,
        decreases maps@.len() - i,
    {
        if maps[i].name == name {
            proof {
                assert(spec[i as int].0 == name@);
                assert(has_map(spec, name@));
                let m = map_index(spec, name@);
                if m != i as int {
                    assert(spec[m].0 != spec[i as int].0);
                }
            }
            let ghost prev = maps@;
            let ghost nm = name@;
            let ghost ev = environment@;
            maps.set(i, MapData { name, environment });
            proof {
                let r = put_map(spec, nm, body);
                assert(maps@[i as int].name@ == nm);
                assert(maps@[i as int].environment@ == ev);
                assert forall|k: int| 0 <= k < maps@.len() implies (#[trigger] maps@[k]).name@ == r[k].0
                    && env_matches(maps@[k].environment@, r[k].1) && maps@[k].environment.wf() by {
                    if k != i {
                        assert(maps@[k] == prev[k]);
                    }
                }
                assert forall|a: int, b: int| 0 <= a < r.len() && 0 <= b < r.len() && a != b implies (#[trigger] r[a]).0 != (#[trigger] r[b]).0 by {
                    assert(r[a].0 == spec[a].0);
                    assert(r[b].0 == spec[b].0);
                }
            }
            return;
        }
        i = i + 1;
    }
    proof {
        assert forall|k: int| 0 <= k < spec.len() implies (#[trigger] spec[k]).0 != name@ by {}
    }
    let ghost prev = maps@;
    maps.push(MapData { name, environment });
    proof {
        let r = put_map(spec, name@, body);
        assert(r == spec.push((name@, body)));
        assert forall|k: int| 0 <= k < maps@.len() implies (#[trigger] maps@[k]).name@ == r[k].0
            && env_matches(maps@[k].environment@, r[k].1) && maps@[k].environment.wf() by {
            if k < prev.len() {
                assert(maps@[k] == prev[k]);
            }
        }
        assert forall|a: int, b: int| 0 <= a < r.len() && 0 <= b < r.len() && a != b implies (#[trigger] r[a]).0 != (#[trigger] r[b]).0 by {
            if a < spec.len() && b < spec.len() {
                assert(r[a] == spec[a]);
                assert(r[b] == spec[b]);
            } else if a < spec.len() {
                assert(r[a] == spec[a]);
            } else {
                assert(r[b] == spec[b]);
            }
        }
    }
}

proof fn lemma_empty_env_matches(env: Seq<crate::environment::PlacedTile>)
    requires
        env.len() == 0,
    ensures
        env_matches(env, Seq::empty()),
{
    assert forall|r: int, c: int| #[trigger] tile_at(env, r, c) == grid_tile(Seq::<Seq<char>>::empty(), r, c) by {}
}

/// Reads the maps of a text in the map definition format.
pub fn parse_environments_text(text: &Vec<char>) -> (r: Vec<MapData>)
    ensures
        maps_match(r@, maps_of(text@)),
{
    let lines = split_lines(text);
    let ghost lv = lines_view(lines@);
    let mut maps: Vec<MapData> = Vec::new();
    let mut reading = false;
    let mut name: Vec<char> = Vec::new();
    let mut env = Environment::new();
    let mut rows: usize = 0;
    proof {
        lemma_empty_env_matches(env@);
        assert(lv.subrange(0, 0) =~= Seq::<Seq<char>>::empty());
    }
    let mut k: usize = 0;
    while k < lines.len()
        invariant
            k <= lines@.len(),
            lv == lines_view(lines@),
            scan(lv.subrange(0, k as int)).reading == reading,
            scan(lv.subrange(0, k as int)).name == name@,
            scan(lv.subrange(0, k as int)).body.len() == rows,
            rows <= k,
            !reading ==> scan(lv.subrange(0, k as int)).body.len() == 0,
            env_matches(env@, scan(lv.subrange(0, k as int)).body),
            env.wf(),
            maps_match(maps@, scan(lv.subrange(0, k as int)).maps),
            names_unique(scan(lv.subrange(0, k as int)).maps),
        decreases lines@.len() - k,
    {
        let ghost s = scan(lv.subrange(0, k as int));
        proof {
            assert(lv.subrange(0, k + 1).drop_last() =~= lv.subrange(0, k as int));
            assert(lv.subrange(0, k + 1).last() == lines@[k as int]@);
        }
        let line = &lines[k];
        if line.len() > 0 && line[0] == MAP_DELIMITER {
            if reading {
                let done_env = env;
                put_map_exec(&mut maps, string_of(&name), done_env, Ghost(s.maps), Ghost(s.body));
                env = Environment::new();
                name = Vec::new();
                rows = 0;
                reading = false;
                proof {
                    lemma_empty_env_matches(env@);
                    assert(name@ =~= Seq::<char>::empty());
                }
            } else {
                let mut nm: Vec<char> = Vec::new();
                let mut j: usize = 1;
                while j < line.len()
                    invariant
                        1 <= j <= line@.len(),
                        nm@ == line@.subrange(1, j as int),
                    decreases line@.len() - j,
                {
                    nm.push(line[j]);
                    j = j + 1;
                    proof {
                        assert(nm@ =~= line@.subrange(1, j as int));
                    }
                }
                name = nm;
                reading = true;
                proof {
                    assert(s.body =~= Seq::<Seq<char>>::empty());
                }
            }
        } else if reading {
            rows = rows + 1;
            proof {
                assert forall|c: int| #[trigger] tile_at(env@, rows as int, c) == None::<Tile> by {
                    assert(tile_at(env@, rows as int, c) == grid_tile(s.body, rows as int, c));
                }
            }
            let ghost before = env@;
            add_row(&mut env, line, rows);
            proof {
                let nb = s.body.push(line@);
                assert forall|r: int, c: int| #[trigger] tile_at(env@, r, c) == grid_tile(nb, r, c) by {
                    assert(tile_at(before, r, c) == grid_tile(s.body, r, c));
                    if 1 <= r <= s.body.len() {
                        assert(nb[r - 1] == s.body[r - 1]);
                    }
                }
            }
        }
        k = k + 1;
    }
    proof {
        assert(lv.subrange(0, lv.len() as int) =~= lv);
    }
    maps
}

/// Reads the maps of a map definition file. Fails exactly when the bytes are
/// not valid UTF-8.
pub fn parse_environments_file(map_bytes: &[u8]) -> (r: Result<Vec<MapData>, std::str::Utf8Error>)
    ensures
        r is Ok <==> valid_utf8(map_bytes@),
        r matches Ok(ms) ==> maps_match(ms@, maps_of(decode_utf8(map_bytes@))),
{
    match decode_text(map_bytes) {
        Ok(text) => Ok(parse_environments_text(&text)),
        Err(e) => Err(e),
    }
}

} // verus!
