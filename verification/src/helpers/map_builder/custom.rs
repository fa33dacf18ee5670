//! Maps laid out by hand: a template gives the size, the theme, where the
//! player and the amulet start, and one character for every tile.

use vstd::prelude::*;
use vstd::string::StrSliceExecFns;
use crate::helpers::geometry::{Point, Rect};
use crate::helpers::map_builder::themes::MapTheme;
use crate::helpers::map_builder::{GenerationError, MapBuilder};
use crate::helpers::tiles::TileType;

verus! {

/// The character that marks a tile where an entity starts.
pub const SPAWN_MARKER: char = 'C';

/// A map as a template describes it.
#[derive(Debug)]
pub struct CustomMap {
    pub width: i32,
    pub height: i32,
    pub theme: MapTheme,
    pub player_start: (i32, i32),
    pub amulet_start: (i32, i32),
    /// One character for every tile, row by row. White space between them
    /// is passed over.
    pub tiles: String,
}

/// Whether `char::is_whitespace` holds of the character: whether Unicode
/// gives it the property `White_Space`.
pub uninterp spec fn is_whitespace(c: char) -> bool;

/// Asks `char::is_whitespace`.
#[verifier::external_body]
fn char_is_whitespace(c: char) -> (white: bool)
    ensures
        white == is_whitespace(c),
{
    c.is_whitespace()
}

/// The characters of `text` without the white space.
pub open spec fn flattened(text: Seq<char>) -> Seq<char> {
    text.filter(|c: char| !is_whitespace(c))
}

/// The entities that the first `upto` characters of `flat` place on a map
/// that is `width` tiles wide: one at the tile of every marker, in their
/// order.
pub open spec fn spawns_in(flat: Seq<char>, width: int, upto: int) -> Seq<(Point, char)>
    decreases upto,
{
    if upto <= 0 {
        Seq::empty()
    } else {
        let before = spawns_in(flat, width, upto - 1);
        let c = flat[upto - 1];
        if c == SPAWN_MARKER {
            before.push(
                (Point { x: ((upto - 1) % width) as i32, y: ((upto - 1) / width) as i32 }, c),
            )
        } else {
            before
        }
    }
}

impl CustomMap {
    /// The template fits its own size: the map has tiles, few enough to be
    /// numbered; there is one character for every tile; and the player and
    /// the amulet start on the map.
    pub open spec fn fits(self) -> bool {
        &&& 0 < self.width
        &&& 0 < self.height
        &&& self.width * self.height < i32::MAX
        &&& flattened(self.tiles@).len() == self.width * self.height
        &&& 0 <= self.player_start.0 < self.width
        &&& 0 <= self.player_start.1 < self.height
        &&& 0 <= self.amulet_start.0 < self.width
        &&& 0 <= self.amulet_start.1 < self.height
    }
}

/// Builds maps from templates.
pub struct CustomFileBuilder {}

impl CustomFileBuilder {
    /// The characters of `text` without the white space.
    pub fn flatten(text: &str) -> (flat: Vec<char>)
        ensures
            flat@ == flattened(text@),
    {
        let n: usize = text.unicode_len();
        let mut flat: Vec<char> = Vec::new();
        let mut i: usize = 0;
        assert(text@.subrange(0, 0) =~= Seq::<char>::empty());
        while i < n
            invariant
                i <= n,
                n == text@.len(),
                flat@ == flattened(text@.subrange(0, i as int)),
            decreases n - i,
        {
            let c: char = text.get_char(i);
            let ghost done = text@.subrange(0, i as int);
            if !char_is_whitespace(c) {
                flat.push(c);
            }
            proof {
                assert(text@.subrange(0, i as int + 1) =~= done.push(c));
                lemma_filter_push(done, c);
            }
            i = i + 1;
        }
        assert(text@.subrange(0, n as int) =~= text@);
        flat
    }

    /// The map that the template describes: every tile a floor of the
    /// theme, an entity at the tile of every marker, and the player and the
    /// amulet where the template puts them. A template that does not fit
    /// its own size gives no map.
    pub fn create_map_builder(custom_map: CustomMap) -> (made: Result<MapBuilder, GenerationError>)
        ensures
            made is Ok <==> custom_map.fits(),
            made matches Err(e) ==> e == GenerationError::BadTemplate,
            made matches Ok(mb) ==> {
                &&& mb.map.wf()
                &&& mb.map.dimensions == (Point { x: custom_map.width, y: custom_map.height })
                &&& forall|i: int|
                    0 <= i < mb.map.tiles.len() ==> (#[trigger] mb.map.tiles[i]).is_new(
                        custom_map.theme.floor(),
                    )
                &&& mb.theme == custom_map.theme
                &&& mb.player_start == (Point {
                    x: custom_map.player_start.0,
                    y: custom_map.player_start.1,
                })
                &&& mb.amulet_start == (Point {
                    x: custom_map.amulet_start.0,
                    y: custom_map.amulet_start.1,
                })
                &&& mb.entity_spawns@ == spawns_in(
                    flattened(custom_map.tiles@),
                    custom_map.width as int,
                    custom_map.width * custom_map.height,
                )
                &&& mb.rooms@ == Seq::<Rect>::empty()
                &&& mb.monster_spawns@ == Seq::<Point>::empty()
                &&& mb.map.enterable(mb.player_start)
                &&& mb.map.enterable(mb.amulet_start)
            },
    {
        if custom_map.width <= 0 || custom_map.height <= 0 {
            return Err(GenerationError::BadTemplate);
        }
        let mut mb = match MapBuilder::blank(
            custom_map.width as u32,
            custom_map.height as u32,
            custom_map.theme,
        ) {
            Ok(mb) => mb,
            Err(_) => {
                return Err(GenerationError::BadTemplate);
            },
        };
        let player = Point { x: custom_map.player_start.0, y: custom_map.player_start.1 };
        let amulet = Point { x: custom_map.amulet_start.0, y: custom_map.amulet_start.1 };
        if !mb.map.in_bounds(player) || !mb.map.in_bounds(amulet) {
            return Err(GenerationError::BadTemplate);
        }
        let tiles: Vec<char> = Self::flatten(custom_map.tiles.as_str());
        if tiles.len() != mb.map.tiles.len() {
            return Err(GenerationError::BadTemplate);
        }
        let mut entity_spawns: Vec<(Point, char)> = Vec::new();
        let mut i: usize = 0;
        while i < tiles.len()
            invariant
                i <= tiles.len(),
                mb.map.wf(),
                mb.map.dimensions.x == custom_map.width,
                tiles.len() == mb.map.tiles.len(),
                entity_spawns@ == spawns_in(tiles@, custom_map.width as int, i as int),
            decreases tiles.len() - i,
        {
            let c: char = tiles[i];
            let point = mb.map.index_to_point2d(i);
            if c == SPAWN_MARKER {
                entity_spawns.push((point, c));
            }
            i = i + 1;
        }
        mb.entity_spawns = entity_spawns;
        mb.player_start = player;
        mb.amulet_start = amulet;
        mb.fill(TileType::ThemeFloor);
        proof {
            mb.map.lemma_index(player);
            mb.map.lemma_index(amulet);
        }
        Ok(mb)
    }
}

/// Passing over white space takes the characters one by one.
pub proof fn lemma_filter_push(text: Seq<char>, c: char)
    ensures
        flattened(text.push(c)) == (if is_whitespace(c) {
            flattened(text)
        } else {
            flattened(text).push(c)
        }),
{
    let keep = |c: char| !is_whitespace(c);
    let longer = text.push(c);
    assert(longer.drop_last() =~= text);
    assert(longer.last() == c);
    assert(longer.filter(keep) == (if keep(c) {
        text.filter(keep).push(c)
    } else {
        text.filter(keep)
    })) by {
        reveal(Seq::filter);
    }
}

} // verus!
