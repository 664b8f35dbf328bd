//! Which sprite a path segment shows, from the constructions around it.
use crate::pathfinding::Pathable;
use vstd::prelude::*;

verus! {

/// A tile coordinate of the path layer.
#[derive(Clone, Copy, Debug, PartialEq, Eq, Structural)]
pub struct TileCoord {
    pub x: u32,
    pub y: u32,
}

pub open spec fn sat_inc(a: u32) -> u32 {
    if a == u32::MAX {
        a
    } else {
        (a + 1) as u32
    }
}

pub open spec fn sat_dec(a: u32) -> u32 {
    if a == 0 {
        a
    } else {
        (a - 1) as u32
    }
}

/// The tiles north, east, south and west of `c`, each step saturating at the
/// edge of the `u32` range (so on the edge the "neighbour" is the tile
/// itself).
pub open spec fn cardinals(c: TileCoord) -> Seq<TileCoord> {
    seq![
        TileCoord { x: c.x, y: sat_inc(c.y) },
        TileCoord { x: sat_inc(c.x), y: c.y },
        TileCoord { x: c.x, y: sat_dec(c.y) },
        TileCoord { x: sat_dec(c.x), y: c.y },
    ]
}

/// The construction on tile `c`: the first entry for it.
pub open spec fn tile_lookup(constructions: Seq<(TileCoord, usize)>, c: TileCoord) -> Option<usize>
    decreases constructions.len(),
{
    if constructions.len() == 0 {
        None
    } else if constructions[0].0 == c {
        Some(constructions[0].1)
    } else {
        tile_lookup(constructions.drop_first(), c)
    }
}

/// No tile is listed twice.
pub open spec fn tiles_distinct(constructions: Seq<(TileCoord, usize)>) -> bool {
    forall|i: int, j: int|
        0 <= i < j < constructions.len() ==> (#[trigger] constructions[i]).0 != (#[trigger] constructions[j]).0
}

/// With each tile listed once, the construction on a tile is that of its
/// entry, and a tile without an entry has none.
proof fn lemma_tile_lookup_entry(constructions: Seq<(TileCoord, usize)>, c: TileCoord)
    requires
        tiles_distinct(constructions),
    ensures
        forall|i: int|
            0 <= i < constructions.len() && (#[trigger] constructions[i]).0 == c ==> tile_lookup(
                constructions,
                c,
            ) == Some(constructions[i].1),
        (forall|i: int| 0 <= i < constructions.len() ==> (#[trigger] constructions[i]).0 != c) ==> tile_lookup(
            constructions,
            c,
        ) is None,
    decreases constructions.len(),
{
    if constructions.len() > 0 {
        let rest = constructions.drop_first();
        assert(tiles_distinct(rest)) by {
            assert forall|i: int, j: int| 0 <= i < j < rest.len() implies (#[trigger] rest[i]).0 != (
            #[trigger] rest[j]).0 by {
                assert(rest[i] == constructions[i + 1]);
                assert(rest[j] == constructions[j + 1]);
            }
        }
        lemma_tile_lookup_entry(rest, c);
        assert forall|i: int|
            0 <= i < constructions.len() && (#[trigger] constructions[i]).0 == c implies tile_lookup(
                constructions,
                c,
            ) == Some(constructions[i].1) by {
            if i > 0 {
                assert(rest[i - 1] == constructions[i]);
                assert(constructions[0].0 != c);
            }
        }
        if forall|i: int| 0 <= i < constructions.len() ==> (#[trigger] constructions[i]).0 != c {
            assert forall|i: int| 0 <= i < rest.len() implies (#[trigger] rest[i]).0 != c by {
                assert(rest[i] == constructions[i + 1]);
            }
        }
    }
}

pub open spec fn occupied(constructions: Seq<(TileCoord, usize)>, c: TileCoord) -> bool {
    tile_lookup(constructions, c) is Some
}

pub open spec fn push_some(s: Seq<usize>, o: Option<usize>) -> Seq<usize> {
    match o {
        Some(x) => s.push(x),
        None => s,
    }
}

/// The constructions on `c` and on the four tiles around it, in that order.
pub open spec fn refresh_set(constructions: Seq<(TileCoord, usize)>, c: TileCoord) -> Seq<usize> {
    let a = cardinals(c);
    push_some(
        push_some(
            push_some(
                push_some(push_some(Seq::empty(), tile_lookup(constructions, c)), tile_lookup(constructions, a[0])),
                tile_lookup(constructions, a[1]),
            ),
            tile_lookup(constructions, a[2]),
        ),
        tile_lookup(constructions, a[3]),
    )
}

pub open spec fn letter(present: bool, c: char) -> Seq<char> {
    if present {
        seq![c]
    } else {
        Seq::empty()
    }
}

/// The sprite slice name: the letters N, E, S, W of the occupied neighbours,
/// in that order, or `C` when none is occupied.
pub open spec fn segment_name(n: bool, e: bool, s: bool, w: bool) -> Seq<char> {
    if !(n || e || s || w) {
        seq!['C']
    } else {
        letter(n, 'N') + letter(e, 'E') + letter(s, 'S') + letter(w, 'W')
    }
}

fn inc(a: u32) -> (r: u32)
    ensures
        r == sat_inc(a),
{
    a.saturating_add(1)
}

fn dec(a: u32) -> (r: u32)
    ensures
        r == sat_dec(a),
{
    a.saturating_sub(1)
}

/// The tiles around `c`: north, east, south, west.
pub fn cardinal_tiles(c: TileCoord) -> (r: Vec<TileCoord>)
    ensures
        r@ == cardinals(c),
{
    let v = vec![
        TileCoord { x: c.x, y: inc(c.y) },
        TileCoord { x: inc(c.x), y: c.y },
        TileCoord { x: c.x, y: dec(c.y) },
        TileCoord { x: dec(c.x), y: c.y },
    ];
    assert(v@ =~= cardinals(c));
    v
}

/// The construction standing on tile `c`, if any.
pub fn construction_at(constructions: &Vec<(TileCoord, usize)>, c: TileCoord) -> (r: Option<usize>)
    ensures
        r == tile_lookup(constructions@, c),
{
    let mut i: usize = 0;
    assert(constructions@.subrange(0, constructions@.len() as int) =~= constructions@);
    while i < constructions.len()
        invariant
            i <= constructions@.len(),
            tile_lookup(constructions@, c) == tile_lookup(
                constructions@.subrange(i as int, constructions@.len() as int),
                c,
            ),
        decreases constructions.len() - i,
    {
        let ghost rest = constructions@.subrange(i as int, constructions@.len() as int);
        assert(rest.drop_first() =~= constructions@.subrange(i + 1, constructions@.len() as int));
        assert(rest[0] == constructions@[i as int]);
        if constructions[i].0 == c {
            return Some(constructions[i].1);
        }
        i = i + 1;
    }
    assert(constructions@.subrange(i as int, constructions@.len() as int) =~= Seq::<
        (TileCoord, usize),
    >::empty());
    None
}

/// The name of the slice a path segment shows, given which of its
/// neighbours (north, east, south, west) hold constructions.
pub fn segment_slice_name(n: bool, e: bool, s: bool, w: bool) -> (name: String)
    ensures
        name@ == segment_name(n, e, s, w),
{
    proof {
        reveal_strlit("C");
        reveal_strlit("N");
        reveal_strlit("E");
        reveal_strlit("S");
        reveal_strlit("W");
    }
    if !(n || e || s || w) {
        return String::from_str("C");
    }
    let mut name = String::new();
    if n {
        name.append("N");
    }
    if e {
        name.append("E");
    }
    if s {
        name.append("S");
    }
    if w {
        name.append("W");
    }
    assert(name@ =~= segment_name(n, e, s, w));
    name
}

/// The slice name of the path segment on tile `c`.
pub fn compute_sprite(constructions: &Vec<(TileCoord, usize)>, c: TileCoord) -> (name: String)
    ensures
        name@ == segment_name(
            occupied(constructions@, cardinals(c)[0]),
            occupied(constructions@, cardinals(c)[1]),
            occupied(constructions@, cardinals(c)[2]),
            occupied(constructions@, cardinals(c)[3]),
        ),
{
    let around = cardinal_tiles(c);
    let n = construction_at(constructions, around[0]).is_some();
    let e = construction_at(constructions, around[1]).is_some();
    let s = construction_at(constructions, around[2]).is_some();
    let w = construction_at(constructions, around[3]).is_some();
    segment_slice_name(n, e, s, w)
}

/// The path segments whose sprite must be recomputed when a construction
/// appears on or disappears from tile `c`: those on `c` and on the four tiles
/// around it, in that order.
pub fn segments_to_refresh(constructions: &Vec<(TileCoord, usize)>, c: TileCoord) -> (r: Vec<usize>)
    ensures
        r@ == refresh_set(constructions@, c),
{
    let around = cardinal_tiles(c);
    let mut r: Vec<usize> = Vec::new();
    push_found(&mut r, construction_at(constructions, c));
    push_found(&mut r, construction_at(constructions, around[0]));
    push_found(&mut r, construction_at(constructions, around[1]));
    push_found(&mut r, construction_at(constructions, around[2]));
    push_found(&mut r, construction_at(constructions, around[3]));
    r
}

fn push_found(v: &mut Vec<usize>, o: Option<usize>)
    ensures
        final(v)@ == push_some(old(v)@, o),
{
    if let Some(x) = o {
        v.push(x);
    }
}

/// A path segment placed on a tile: its entity and tile, whether porters walk
/// over it, the slice of the segment sprite it shows, and whether it can be
/// demolished.
#[derive(Clone, Debug)]
pub struct PathSegment {
    pub entity: usize,
    pub coord: TileCoord,
    pub pathable: Pathable,
    pub slice: String,
    pub demolishable: bool,
}

/// A click on tile `c`: when the hotbar's action places paths, a new segment
/// `entity` is placed there: walkable, demolishable, showing the slice `C`
/// until its sprite is computed. It becomes the construction recorded on `c`
/// (in place of any recorded there before) and is announced as constructed.
/// Otherwise nothing happens.
pub fn spawn_path(
    constructions: &mut Vec<(TileCoord, usize)>,
    c: TileCoord,
    places_path: bool,
    entity: usize,
) -> (constructed: Option<PathSegment>)
    requires
        tiles_distinct(old(constructions)@),
    ensures
        tiles_distinct(final(constructions)@),
        !places_path ==> constructed is None && final(constructions)@ == old(constructions)@,
        places_path ==> (constructed matches Some(seg) && seg.entity == entity && seg.coord == c
            && seg.pathable.walkable && seg.slice@ == seq!['C'] && seg.demolishable),
        places_path ==> tile_lookup(final(constructions)@, c) == Some(entity),
        forall|d: TileCoord| d != c ==> tile_lookup(final(constructions)@, d) == tile_lookup(old(constructions)@, d),
{
    if !places_path {
        return None;
    }
    let mut i: usize = 0;
    while i < constructions.len() && constructions[i].0 != c
        invariant
            i <= constructions@.len(),
            constructions@ == old(constructions)@,
            forall|j: int| 0 <= j < i ==> (#[trigger] constructions@[j]).0 != c,
        decreases constructions.len() - i,
    {
        i = i + 1;
    }
    let ghost before = constructions@;
    if i < constructions.len() {
        constructions.set(i, (c, entity));
    } else {
        constructions.push((c, entity));
    }
    proof {
        let after = constructions@;
        assert(forall|j: int| 0 <= j < after.len() && j != i ==> after[j] == before[j]);
        assert(after[i as int] == (c, entity));
        assert(tiles_distinct(after)) by {
            assert forall|a: int, b: int| 0 <= a < b < after.len() implies (#[trigger] after[a]).0 != (
            #[trigger] after[b]).0 by {
                if a != i && b != i {
                    assert(after[a] == before[a] && after[b] == before[b]);
                } else if a == i {
                    assert(after[b] == before[b]);
                    if i < before.len() {
                        assert(before[a].0 == c);
                    }
                } else {
                    assert(after[a] == before[a]);
                }
            }
        }
        lemma_tile_lookup_entry(after, c);
        assert forall|d: TileCoord| d != c implies tile_lookup(after, d) == tile_lookup(before, d) by {
            lemma_tile_lookup_entry(after, d);
            lemma_tile_lookup_entry(before, d);
            if exists|j: int| 0 <= j < before.len() && before[j].0 == d {
                let j = choose|j: int| 0 <= j < before.len() && before[j].0 == d;
                assert(j != i);
                assert(after[j] == before[j]);
            } else {
                assert forall|j: int| 0 <= j < after.len() implies (#[trigger] after[j]).0 != d by {
                    if j != i {
                        assert(after[j] == before[j]);
                    }
                }
            }
        }
        reveal_strlit("C");
    }
    Some(
        PathSegment {
            entity,
            coord: c,
            pathable: Pathable::walkable(),
            slice: String::from_str("C"),
            demolishable: true,
        },
    )
}

/// The slice a path segment shows: `C` exactly when none of its four
/// neighbours is occupied; otherwise one letter per occupied neighbour (`N`,
/// `E`, `S`, `W`), each present exactly when that neighbour is occupied, in
/// that order, and no `C`.
pub proof fn lemma_segment_name_letters(n: bool, e: bool, s: bool, w: bool)
    ensures
        (segment_name(n, e, s, w) == seq!['C']) <==> !(n || e || s || w),
        segment_name(n, e, s, w).contains('C') <==> !(n || e || s || w),
        segment_name(n, e, s, w).contains('N') <==> n,
        segment_name(n, e, s, w).contains('E') <==> e,
        segment_name(n, e, s, w).contains('S') <==> s,
        segment_name(n, e, s, w).contains('W') <==> w,
        (n || e || s || w) ==> segment_name(n, e, s, w).len() == (if n { 1int } else { 0 }) + (if e {
            1int
        } else {
            0
        }) + (if s { 1int } else { 0 }) + (if w { 1int } else { 0 }),
        n ==> segment_name(n, e, s, w)[0] == 'N',
        w ==> segment_name(n, e, s, w).last() == 'W',
{
    let name = segment_name(n, e, s, w);
    if n || e || s || w {
        let ln = letter(n, 'N');
        let le = letter(e, 'E');
        let ls = letter(s, 'S');
        let lw = letter(w, 'W');
        assert(name == ln + le + ls + lw);
        assert forall|ch: char| #[trigger] name.contains(ch) <==> (ln.contains(ch) || le.contains(ch) || ls.contains(
            ch,
        ) || lw.contains(ch)) by {
            let a = ln + le;
            let b = a + ls;
            if name.contains(ch) {
                let i = choose|i: int| 0 <= i < name.len() && name[i] == ch;
                if i < ln.len() {
                    assert(ln[i] == ch);
                } else if i < a.len() {
                    assert(le[i - ln.len()] == ch);
                } else if i < b.len() {
                    assert(ls[i - a.len()] == ch);
                } else {
                    assert(lw[i - b.len()] == ch);
                }
            }
            if ln.contains(ch) {
                assert(name[0] == ch);
            }
            if le.contains(ch) {
                assert(name[ln.len() as int] == ch);
            }
            if ls.contains(ch) {
                assert(name[a.len() as int] == ch);
            }
            if lw.contains(ch) {
                assert(name[b.len() as int] == ch);
            }
        }
        assert(ln.contains('N') <==> n) by {
            if n {
                assert(ln[0] == 'N');
            }
        }
        assert(le.contains('E') <==> e) by {
            if e {
                assert(le[0] == 'E');
            }
        }
        assert(ls.contains('S') <==> s) by {
            if s {
                assert(ls[0] == 'S');
            }
        }
        assert(lw.contains('W') <==> w) by {
            if w {
                assert(lw[0] == 'W');
            }
        }
        assert(!ln.contains('C') && !le.contains('C') && !ls.contains('C') && !lw.contains('C'));
        assert(!ln.contains('E') && !ln.contains('S') && !ln.contains('W'));
        assert(!le.contains('N') && !le.contains('S') && !le.contains('W'));
        assert(!ls.contains('N') && !ls.contains('E') && !ls.contains('W'));
        assert(!lw.contains('N') && !lw.contains('E') && !lw.contains('S'));
        if name == seq!['C'] {
            assert(name.contains('C')) by {
                assert(name[0] == 'C');
            }
        }
        if n {
            assert(name[0] == ln[0]);
        }
        if w {
            assert(name.last() == lw[0]);
        }
    } else {
        assert(name =~= seq!['C']);
        assert(name[0] == 'C');
        assert(!name.contains('N') && !name.contains('E') && !name.contains('S') && !name.contains('W'));
    }
}

} // verus!
