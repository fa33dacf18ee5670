//! Rooms and corridors: rectangular rooms, each joined to the next by a
//! corridor with one bend.

use vstd::prelude::*;
use bracket_random::prelude::RandomNumberGenerator;
use crate::helpers::geometry::{Point, Rect};
use crate::helpers::map::TileMap;
use crate::helpers::map_builder::themes::MapTheme;
use crate::helpers::map_builder::{GenerationError, MapBuilder};
use crate::helpers::random::roll_range;
use crate::helpers::tiles::TileType;

verus! {

/// How many rooms a map gets.
pub const NUM_ROOMS: usize = 20;

/// The architect gives up after this many rooms drawn.
pub const MAX_ATTEMPTS: u32 = 10000;

/// The least width and height of a map that rooms can be drawn for.
pub const MIN_SIZE: u32 = 12;

/// `x` lies between `a` and `b`, whichever of them is the greater.
pub open spec fn between(a: int, b: int, x: int) -> bool {
    (a <= x <= b) || (b <= x <= a)
}

/// Places rooms and joins them by corridors.
pub struct RoomsArchitect {}

impl RoomsArchitect {
    /// The rectangle lies on the map, off its first row and column.
    pub open spec fn is_room(map: TileMap, room: Rect) -> bool {
        0 < room.x1 < room.x2 < map.dimensions.x && 0 < room.y1 < room.y2 < map.dimensions.y
    }

    /// The rectangle is one that the architect draws for the map: between 2
    /// and 9 tiles wide and high, its corner off the first row and column
    /// and more than ten tiles from the last.
    pub open spec fn drawn(map: TileMap, room: Rect) -> bool {
        &&& 1 <= room.x1 <= map.dimensions.x - 11
        &&& 1 <= room.y1 <= map.dimensions.y - 11
        &&& 2 <= room.x2 - room.x1 <= 9
        &&& 2 <= room.y2 - room.y1 <= 9
    }

    /// All the rooms are as the architect draws them.
    pub open spec fn all_drawn(map: TileMap, rooms: Seq<Rect>) -> bool {
        forall|i: int| 0 <= i < rooms.len() ==> Self::drawn(map, #[trigger] rooms[i])
    }

    /// No two of the rooms share a point, their borders included.
    pub open spec fn apart(rooms: Seq<Rect>) -> bool {
        forall|i: int, j: int|
            0 <= i < j < rooms.len() ==> !(#[trigger] rooms[i]).intersects(#[trigger] rooms[j])
    }

    /// From the middle of every room one can walk to the middle of every
    /// other.
    pub open spec fn centers_linked(map: TileMap, rooms: Seq<Rect>) -> bool {
        forall|i: int, j: int|
            0 <= i < rooms.len() && 0 <= j < rooms.len() ==> map.linked(
                (#[trigger] rooms[i]).center_point(),
                (#[trigger] rooms[j]).center_point(),
            )
    }

    /// The monsters start in the middles of all rooms but the first.
    pub open spec fn monsters_in_rooms(mb: MapBuilder) -> bool {
        &&& mb.monster_spawns.len() + 1 == mb.rooms.len()
        &&& forall|i: int|
            0 <= i < mb.monster_spawns.len() ==> #[trigger] mb.monster_spawns[i] == mb.rooms[i
                + 1].center_point()
    }

    /// What the architect hands over: [`NUM_ROOMS`] rooms of the map, no
    /// two sharing a point, with a way from the middle of each to the
    /// middle of every other; the player in the middle of the first room,
    /// and a monster in the middle of every other room.
    pub open spec fn furnished(mb: MapBuilder) -> bool {
        &&& mb.rooms.len() == NUM_ROOMS
        &&& Self::rooms_placed(mb)
        &&& Self::all_drawn(mb.map, mb.rooms@)
        &&& Self::centers_linked(mb.map, mb.rooms@)
        &&& mb.player_start == mb.rooms[0].center_point()
        &&& Self::monsters_in_rooms(mb)
    }

    /// Builds a map of rooms and corridors of the given size. See
    /// [`Self::build`]; the architect gives up after [`MAX_ATTEMPTS`] rooms
    /// drawn.
    pub fn new(
        &mut self,
        width: u32,
        height: u32,
        theme: MapTheme,
        rng: &mut RandomNumberGenerator,
    ) -> (made: Result<MapBuilder, GenerationError>)
        ensures
            made matches Ok(mb) ==> mb.generated(width, height, theme) && Self::furnished(mb),
            made matches Err(e) ==> e == GenerationError::BadSize || e
                == GenerationError::MapTooSmall || e == GenerationError::OutOfAttempts,
            made == Err::<MapBuilder, GenerationError>(GenerationError::BadSize)
                <==> !MapBuilder::size_ok(width, height),
            made == Err::<MapBuilder, GenerationError>(GenerationError::MapTooSmall) <==> (
            MapBuilder::size_ok(width, height) && (width < MIN_SIZE || height < MIN_SIZE)),
    {
        self.build(width, height, theme, rng, MAX_ATTEMPTS)
    }

    /// Builds a map of rooms and corridors of the given size: the map is
    /// all wall, rooms are drawn and placed, and corridors are dug between
    /// them. The player starts in the middle of the first room placed, the
    /// amulet lies as far from there as can be, and a monster starts in the
    /// middle of every other room. A map less than [`MIN_SIZE`] wide or
    /// high is too small; the architect gives up with `OutOfAttempts` when
    /// `max_attempts` rooms drawn have not given [`NUM_ROOMS`] to place.
    pub fn build(
        &mut self,
        width: u32,
        height: u32,
        theme: MapTheme,
        rng: &mut RandomNumberGenerator,
        max_attempts: u32,
    ) -> (made: Result<MapBuilder, GenerationError>)
        ensures
            made matches Ok(mb) ==> mb.generated(width, height, theme) && Self::furnished(mb),
            made matches Err(e) ==> e == GenerationError::BadSize || e
                == GenerationError::MapTooSmall || e == GenerationError::OutOfAttempts,
            made == Err::<MapBuilder, GenerationError>(GenerationError::BadSize)
                <==> !MapBuilder::size_ok(width, height),
            made == Err::<MapBuilder, GenerationError>(GenerationError::MapTooSmall) <==> (
            MapBuilder::size_ok(width, height) && (width < MIN_SIZE || height < MIN_SIZE)),
    {
        let mut mb = match MapBuilder::blank(width, height, theme) {
            Ok(mb) => mb,
            Err(e) => {
                return Err(e);
            },
        };
        if width < MIN_SIZE || height < MIN_SIZE {
            return Err(GenerationError::MapTooSmall);
        }
        mb.fill(TileType::ThemeWall);
        proof {
            assert(width <= 0x3fff_ffff && height <= 0x3fff_ffff) by (nonlinear_arith)
                requires
                    width * height < 0x7fff_ffff,
                    width >= 12,
                    height >= 12,
            ;
        }
        if !self.build_random_rooms(&mut mb, rng, max_attempts) {
            return Err(GenerationError::OutOfAttempts);
        }
        self.build_corridors(&mut mb, rng);
        proof {
            Self::lemma_center_in_room(mb.map, mb.rooms[0]);
        }
        mb.player_start = mb.rooms[0].center();
        let goal = mb.find_most_distant();
        match goal {
            Some(g) => {
                mb.amulet_start = g;
            },
            None => {},
        }
        let mut i: usize = 1;
        while i < mb.rooms.len()
            invariant
                1 <= i <= mb.rooms.len(),
                mb.rooms.len() == NUM_ROOMS,
                Self::rooms_placed(mb),
                Self::all_drawn(mb.map, mb.rooms@),
                mb.map.dimensions.x <= 0x3fff_ffff,
                mb.map.dimensions.y <= 0x3fff_ffff,
                mb.monster_spawns.len() + 1 == i,
                forall|k: int|
                    0 <= k < mb.monster_spawns.len() ==> #[trigger] mb.monster_spawns[k]
                        == mb.rooms[k + 1].center_point(),
                Self::centers_linked(mb.map, mb.rooms@),
                mb.player_start == mb.rooms[0].center_point(),
                mb.map.spec_in_bounds(mb.amulet_start),
                mb.map.farthest_from(mb.player_start, mb.amulet_start, crate::helpers::map_builder::MAX_DEPTH as int),
                mb.map.dimensions.x == width,
                mb.map.dimensions.y == height,
                mb.theme == theme,
            decreases mb.rooms.len() - i,
        {
            proof {
                Self::lemma_center_in_room(mb.map, mb.rooms[i as int]);
            }
            let center: Point = mb.rooms[i].center();
            mb.monster_spawns.push(center);
            i = i + 1;
        }
        proof {
            assert forall|k: int| 0 <= k < mb.monster_spawns.len() implies mb.map.floor_at(
                mb.theme,
                #[trigger] mb.monster_spawns[k],
            ) by {
                Self::lemma_center_in_room(mb.map, mb.rooms[k + 1]);
            }
            Self::lemma_center_in_room(mb.map, mb.rooms[0]);
            mb.lemma_starts_enterable();
        }
        Ok(mb)
    }

    /// The tile at `p` is dug out for the room: it lies in the rectangle and
    /// off the first row and column of the map.
    pub open spec fn in_room(room: Rect, p: Point) -> bool {
        room.covers(p) && p.x > 0 && p.y > 0
    }

    /// The tile at `p` lies on the corridor from `prev` to `next`: along the
    /// row of `prev` and then the column of `next`, or along the column of
    /// `prev` and then the row of `next`.
    pub open spec fn on_corridor(prev: Point, next: Point, horizontal_first: bool, p: Point) -> bool {
        if horizontal_first {
            (p.y == prev.y && between(prev.x as int, next.x as int, p.x as int)) || (p.x == next.x
                && between(prev.y as int, next.y as int, p.y as int))
        } else {
            (p.x == prev.x && between(prev.y as int, next.y as int, p.y as int)) || (p.y == next.y
                && between(prev.x as int, next.x as int, p.x as int))
        }
    }

    /// Turns the tiles of the column `x` from the row `y1` to the row `y2`
    /// into floor, as far as they lie on the map.
    pub fn apply_vertical_tunnel(&mut self, mb: &mut MapBuilder, y1: i32, y2: i32, x: i32)
        requires
            old(mb).map.wf(),
        ensures
            MapBuilder::rebuilt(*final(mb), *old(mb)),
            forall|p: Point|
                #![trigger final(mb).map.tile_at(p)]
                old(mb).map.spec_in_bounds(p) ==> (if p.x == x && between(
                    y1 as int,
                    y2 as int,
                    p.y as int,
                ) {
                    final(mb).map.tile_at(p).is_new(old(mb).theme.floor())
                } else {
                    final(mb).map.tile_at(p) == old(mb).map.tile_at(p)
                }),
    {
        let low: i32 = if y1 <= y2 {
            y1
        } else {
            y2
        };
        let high: i32 = if y1 <= y2 {
            y2
        } else {
            y1
        };
        let ghost start = *mb;
        let mut y: i32 = low;
        loop
            invariant_except_break
                low <= y <= high,
                forall|p: Point|
                    #![trigger mb.map.tile_at(p)]
                    start.map.spec_in_bounds(p) ==> (if p.x == x && low <= p.y < y {
                        mb.map.tile_at(p).is_new(start.theme.floor())
                    } else {
                        mb.map.tile_at(p) == start.map.tile_at(p)
                    }),
            invariant
                start.map.wf(),
                start == *old(mb),
                MapBuilder::rebuilt(*mb, start),
            ensures
                forall|p: Point|
                    #![trigger mb.map.tile_at(p)]
                    start.map.spec_in_bounds(p) ==> (if p.x == x && low <= p.y <= high {
                        mb.map.tile_at(p).is_new(start.theme.floor())
                    } else {
                        mb.map.tile_at(p) == start.map.tile_at(p)
                    }),
            decreases high - y,
        {
            let here = Point { x, y };
            if mb.map.try_idx(here).is_some() {
                mb.place(here, TileType::ThemeFloor);
            }
            if y >= high {
                break ;
            }
            y = y + 1;
        }
    }

    /// Turns the tiles of the row `y` from the column `x1` to the column
    /// `x2` into floor, as far as they lie on the map.
    pub fn apply_horizontal_tunnel(&mut self, mb: &mut MapBuilder, x1: i32, x2: i32, y: i32)
        requires
            old(mb).map.wf(),
        ensures
            MapBuilder::rebuilt(*final(mb), *old(mb)),
            forall|p: Point|
                #![trigger final(mb).map.tile_at(p)]
                old(mb).map.spec_in_bounds(p) ==> (if p.y == y && between(
                    x1 as int,
                    x2 as int,
                    p.x as int,
                ) {
                    final(mb).map.tile_at(p).is_new(old(mb).theme.floor())
                } else {
                    final(mb).map.tile_at(p) == old(mb).map.tile_at(p)
                }),
    {
        let low: i32 = if x1 <= x2 {
            x1
        } else {
            x2
        };
        let high: i32 = if x1 <= x2 {
            x2
        } else {
            x1
        };
        let ghost start = *mb;
        let mut x: i32 = low;
        loop
            invariant_except_break
                low <= x <= high,
                forall|p: Point|
                    #![trigger mb.map.tile_at(p)]
                    start.map.spec_in_bounds(p) ==> (if p.y == y && low <= p.x < x {
                        mb.map.tile_at(p).is_new(start.theme.floor())
                    } else {
                        mb.map.tile_at(p) == start.map.tile_at(p)
                    }),
            invariant
                start.map.wf(),
                start == *old(mb),
                MapBuilder::rebuilt(*mb, start),
            ensures
                forall|p: Point|
                    #![trigger mb.map.tile_at(p)]
                    start.map.spec_in_bounds(p) ==> (if p.y == y && low <= p.x <= high {
                        mb.map.tile_at(p).is_new(start.theme.floor())
                    } else {
                        mb.map.tile_at(p) == start.map.tile_at(p)
                    }),
            decreases high - x,
        {
            let here = Point { x, y };
            if mb.map.try_idx(here).is_some() {
                mb.place(here, TileType::ThemeFloor);
            }
            if x >= high {
                break ;
            }
            x = x + 1;
        }
    }

    /// Digs the corridor from `prev` to `next`: along the row and then the
    /// column if `horizontal_first`, else along the column and then the
    /// row.
    pub fn connect(&mut self, mb: &mut MapBuilder, prev: Point, next: Point, horizontal_first: bool)
        requires
            old(mb).map.wf(),
        ensures
            MapBuilder::rebuilt(*final(mb), *old(mb)),
            forall|p: Point|
                #![trigger final(mb).map.tile_at(p)]
                old(mb).map.spec_in_bounds(p) ==> (if Self::on_corridor(
                    prev,
                    next,
                    horizontal_first,
                    p,
                ) {
                    final(mb).map.tile_at(p).is_new(old(mb).theme.floor())
                } else {
                    final(mb).map.tile_at(p) == old(mb).map.tile_at(p)
                }),
    {
        let ghost start = *mb;
        if horizontal_first {
            self.apply_horizontal_tunnel(mb, prev.x, next.x, prev.y);
            let ghost half = *mb;
            self.apply_vertical_tunnel(mb, prev.y, next.y, next.x);
            proof {
                assert forall|p: Point|
                    #![trigger mb.map.tile_at(p)]
                    start.map.spec_in_bounds(p) implies (if Self::on_corridor(
                    prev,
                    next,
                    horizontal_first,
                    p,
                ) {
                    mb.map.tile_at(p).is_new(start.theme.floor())
                } else {
                    mb.map.tile_at(p) == start.map.tile_at(p)
                }) by {
                    assert(half.map.tile_at(p) == half.map.tiles[half.map.index_of(p)]);
                }
            }
        } else {
            self.apply_vertical_tunnel(mb, prev.y, next.y, prev.x);
            let ghost half = *mb;
            self.apply_horizontal_tunnel(mb, prev.x, next.x, next.y);
            proof {
                assert forall|p: Point|
                    #![trigger mb.map.tile_at(p)]
                    start.map.spec_in_bounds(p) implies (if Self::on_corridor(
                    prev,
                    next,
                    horizontal_first,
                    p,
                ) {
                    mb.map.tile_at(p).is_new(start.theme.floor())
                } else {
                    mb.map.tile_at(p) == start.map.tile_at(p)
                }) by {
                    assert(half.map.tile_at(p) == half.map.tiles[half.map.index_of(p)]);
                }
            }
        }
    }

    /// Some room placed so far shares a point with `room`.
    pub open spec fn taken(rooms: Seq<Rect>, room: Rect) -> bool {
        exists|i: int| 0 <= i < rooms.len() && (#[trigger] rooms[i]).intersects(room)
    }

    /// Places `room` unless it shares a point with a room placed before: its
    /// tiles are turned into floor, and it is added to the rooms.
    pub fn try_room(mb: &mut MapBuilder, room: Rect) -> (placed: bool)
        requires
            old(mb).map.wf(),
        ensures
            placed == !Self::taken(old(mb).rooms@, room),
            !placed ==> *final(mb) == *old(mb),
            placed ==> {
                &&& final(mb).map.wf()
                &&& final(mb).map.dimensions == old(mb).map.dimensions
                &&& final(mb).rooms@ == old(mb).rooms@.push(room)
                &&& forall|p: Point|
                    #![trigger final(mb).map.tile_at(p)]
                    old(mb).map.spec_in_bounds(p) ==> (if Self::in_room(room, p) {
                        final(mb).map.tile_at(p).is_new(old(mb).theme.floor())
                    } else {
                        final(mb).map.tile_at(p) == old(mb).map.tile_at(p)
                    })
                &&& final(mb).monster_spawns == old(mb).monster_spawns
                &&& final(mb).entity_spawns == old(mb).entity_spawns
                &&& final(mb).player_start == old(mb).player_start
                &&& final(mb).amulet_start == old(mb).amulet_start
                &&& final(mb).theme == old(mb).theme
            },
    {
        let mut overlap: bool = false;
        let mut i: usize = 0;
        while i < mb.rooms.len()
            invariant
                *mb == *old(mb),
                i <= mb.rooms.len(),
                overlap == Self::taken(mb.rooms@.subrange(0, i as int), room),
            decreases mb.rooms.len() - i,
        {
            let ghost done = mb.rooms@.subrange(0, i as int);
            let ghost done_next = mb.rooms@.subrange(0, i as int + 1);
            if mb.rooms[i].intersect(&room) {
                overlap = true;
            }
            proof {
                assert(done_next[i as int] == mb.rooms[i as int]);
                if Self::taken(done, room) {
                    let k = choose|k: int| 0 <= k < done.len() && (#[trigger] done[k]).intersects(room);
                    assert(done_next[k].intersects(room));
                }
                if Self::taken(done_next, room) {
                    let k = choose|k: int|
                        0 <= k < done_next.len() && (#[trigger] done_next[k]).intersects(room);
                    if k < i {
                        assert(done[k].intersects(room));
                    }
                }
            }
            i = i + 1;
        }
        proof {
            assert(mb.rooms@.subrange(0, mb.rooms.len() as int) =~= mb.rooms@);
        }
        if !overlap {
            Self::carve(mb, &room);
            mb.rooms.push(room);
        }
        !overlap
    }

    /// What holds of the rooms while they are placed: they are rooms of the
    /// map, no two share a point, and their tiles are floors.
    pub open spec fn rooms_placed(mb: MapBuilder) -> bool {
        &&& mb.map.wf()
        &&& mb.map.built_of(mb.theme)
        &&& Self::apart(mb.rooms@)
        &&& forall|i: int| 0 <= i < mb.rooms.len() ==> Self::is_room(mb.map, #[trigger] mb.rooms[i])
        &&& forall|i: int, p: Point|
            0 <= i < mb.rooms.len() && (#[trigger] mb.rooms[i]).covers(p) ==> #[trigger] mb.map.floor_at(
                mb.theme,
                p,
            )
    }

    /// Draws rooms at random, between 2 and 9 tiles wide and high, and
    /// places those that share no point with a room placed before, until
    /// there are [`NUM_ROOMS`]. Gives up, and says so, after `max_attempts`
    /// rooms drawn.
    pub fn build_random_rooms(
        &mut self,
        mb: &mut MapBuilder,
        rng: &mut RandomNumberGenerator,
        max_attempts: u32,
    ) -> (done: bool)
        requires
            Self::rooms_placed(*old(mb)),
            Self::all_drawn(old(mb).map, old(mb).rooms@),
            old(mb).map.dimensions.x >= MIN_SIZE,
            old(mb).map.dimensions.y >= MIN_SIZE,
        ensures
            Self::rooms_placed(*final(mb)),
            Self::all_drawn(final(mb).map, final(mb).rooms@),
            done <==> final(mb).rooms.len() >= NUM_ROOMS,
            final(mb).rooms.len() <= NUM_ROOMS || final(mb).rooms@ == old(mb).rooms@,
            final(mb).map.dimensions == old(mb).map.dimensions,
            final(mb).monster_spawns == old(mb).monster_spawns,
            final(mb).entity_spawns == old(mb).entity_spawns,
            final(mb).player_start == old(mb).player_start,
            final(mb).amulet_start == old(mb).amulet_start,
            final(mb).theme == old(mb).theme,
    {
        let mut attempts: u32 = 0;
        while mb.rooms.len() < NUM_ROOMS
            invariant
                Self::rooms_placed(*mb),
                Self::all_drawn(mb.map, mb.rooms@),
                attempts <= max_attempts,
                mb.rooms.len() <= NUM_ROOMS || mb.rooms@ == old(mb).rooms@,
                mb.map.dimensions == old(mb).map.dimensions,
                mb.map.dimensions.x >= MIN_SIZE,
                mb.map.dimensions.y >= MIN_SIZE,
                mb.monster_spawns == old(mb).monster_spawns,
                mb.entity_spawns == old(mb).entity_spawns,
                mb.player_start == old(mb).player_start,
                mb.amulet_start == old(mb).amulet_start,
                mb.theme == old(mb).theme,
            decreases max_attempts - attempts,
        {
            if attempts >= max_attempts {
                return false;
            }
            attempts = attempts + 1;
            let x: i32 = roll_range(rng, 1, mb.map.dimensions.x - 10);
            let y: i32 = roll_range(rng, 1, mb.map.dimensions.y - 10);
            let w: i32 = roll_range(rng, 2, 10);
            let h: i32 = roll_range(rng, 2, 10);
            let room = Rect::with_size(x, y, w, h);
            let ghost before = *mb;
            let placed = Self::try_room(mb, room);
            proof {
                if placed {
                    Self::lemma_room_placed(before, *mb, room);
                    assert forall|i: int| 0 <= i < mb.rooms.len() implies Self::drawn(
                        mb.map,
                        #[trigger] mb.rooms[i],
                    ) by {
                        if i < before.rooms.len() {
                            assert(mb.rooms[i] == before.rooms[i]);
                        }
                    }
                }
            }
        }
        true
    }

    /// Placing a room that is a room of the map and shares no point with
    /// the rooms placed before keeps the rooms in order.
    pub proof fn lemma_room_placed(before: MapBuilder, after: MapBuilder, room: Rect)
        requires
            Self::rooms_placed(before),
            Self::is_room(before.map, room),
            !Self::taken(before.rooms@, room),
            after.map.wf(),
            after.map.dimensions == before.map.dimensions,
            after.rooms@ == before.rooms@.push(room),
            after.theme == before.theme,
            forall|p: Point|
                #![trigger after.map.tile_at(p)]
                before.map.spec_in_bounds(p) ==> (if Self::in_room(room, p) {
                    after.map.tile_at(p).is_new(before.theme.floor())
                } else {
                    after.map.tile_at(p) == before.map.tile_at(p)
                }),
        ensures
            Self::rooms_placed(after),
    {
        let theme = before.theme;
        assert forall|i: int| 0 <= i < after.map.tiles.len() implies (#[trigger] after.map.tiles[i]).is_new(
            theme.floor(),
        ) || after.map.tiles[i].is_new(theme.wall()) by {
            before.map.lemma_point_at_index(i);
            let p = Point {
                x: (i % (before.map.dimensions.x as int)) as i32,
                y: (i / (before.map.dimensions.x as int)) as i32,
            };
            assert(after.map.tile_at(p) == after.map.tiles[i]);
            assert(before.map.tile_at(p) == before.map.tiles[i]);
        }
        assert forall|i: int, j: int| 0 <= i < j < after.rooms.len() implies !(
        #[trigger] after.rooms[i]).intersects(#[trigger] after.rooms[j]) by {
            if j < before.rooms.len() {
                assert(after.rooms[i] == before.rooms[i]);
                assert(after.rooms[j] == before.rooms[j]);
            } else {
                assert(after.rooms[i] == before.rooms[i]);
                assert(!before.rooms[i].intersects(room));
            }
        }
        assert forall|i: int| 0 <= i < after.rooms.len() implies Self::is_room(
            after.map,
            #[trigger] after.rooms[i],
        ) by {
            if i < before.rooms.len() {
                assert(after.rooms[i] == before.rooms[i]);
            }
        }
        assert forall|i: int, p: Point|
            0 <= i < after.rooms.len() && (#[trigger] after.rooms[i]).covers(
                p,
            ) implies #[trigger] after.map.floor_at(theme, p) by {
            assert(Self::is_room(after.map, after.rooms[i]));
            assert(after.map.tile_at(p) == after.map.tiles[after.map.index_of(p)]);
            if i < before.rooms.len() {
                assert(after.rooms[i] == before.rooms[i]);
                assert(before.map.floor_at(theme, p));
            }
        }
    }

    /// The middle of a room of the map lies in the room.
    pub proof fn lemma_center_in_room(map: TileMap, room: Rect)
        requires
            Self::is_room(map, room),
        ensures
            room.covers(room.center_point()),
            map.spec_in_bounds(room.center_point()),
            room.has_center() || map.dimensions.x > 0x3fff_ffff || map.dimensions.y > 0x3fff_ffff,
    {
    }

    /// Once the corridor from `prev` to `next` is dug, one can walk from
    /// the one to the other, and wherever one could walk before.
    pub proof fn lemma_corridor_links(
        before: TileMap,
        after: TileMap,
        theme: MapTheme,
        prev: Point,
        next: Point,
        horizontal_first: bool,
    )
        requires
            before.wf(),
            after.wf(),
            after.dimensions == before.dimensions,
            before.spec_in_bounds(prev),
            before.spec_in_bounds(next),
            forall|p: Point|
                #![trigger after.tile_at(p)]
                before.spec_in_bounds(p) ==> (if Self::on_corridor(prev, next, horizontal_first, p) {
                    after.tile_at(p).is_new(theme.floor())
                } else {
                    after.tile_at(p) == before.tile_at(p)
                }),
        ensures
            after.linked(prev, next),
            forall|p: Point| before.enterable(p) ==> after.enterable(p),
            forall|a: Point, b: Point| #[trigger] before.linked(a, b) ==> after.linked(a, b),
    {
        let steps = after.steps();
        assert forall|p: Point| before.enterable(p) implies after.enterable(p) by {
            assert(after.tile_at(p) == after.tiles[after.index_of(p)]);
        }
        assert forall|p: Point| #[trigger] before.steps().is_open(p) implies steps.is_open(p) by {
            before.lemma_open_is_enterable(p);
            after.lemma_open_is_enterable(p);
        }
        assert forall|a: Point, b: Point| #[trigger] before.linked(a, b) implies after.linked(
            a,
            b,
        ) by {
            before.steps().lemma_linked_still(steps, a, b);
        }
        let corner = if horizontal_first {
            Point { x: next.x, y: prev.y }
        } else {
            Point { x: prev.x, y: next.y }
        };
        if horizontal_first {
            assert forall|x: int|
                between(prev.x as int, next.x as int, x) implies #[trigger] steps.is_open(
                Point { x: x as i32, y: prev.y },
            ) by {
                let p = Point { x: x as i32, y: prev.y };
                after.lemma_open_is_enterable(p);
                assert(after.tile_at(p).is_new(theme.floor()));
            }
            steps.lemma_linked_along_row(prev.y as int, prev.x as int, next.x as int);
            assert forall|y: int|
                between(prev.y as int, next.y as int, y) implies #[trigger] steps.is_open(
                Point { x: next.x, y: y as i32 },
            ) by {
                let p = Point { x: next.x, y: y as i32 };
                after.lemma_open_is_enterable(p);
                assert(after.tile_at(p).is_new(theme.floor()));
            }
            steps.lemma_linked_along_column(next.x as int, prev.y as int, next.y as int);
        } else {
            assert forall|y: int|
                between(prev.y as int, next.y as int, y) implies #[trigger] steps.is_open(
                Point { x: prev.x, y: y as i32 },
            ) by {
                let p = Point { x: prev.x, y: y as i32 };
                after.lemma_open_is_enterable(p);
                assert(after.tile_at(p).is_new(theme.floor()));
            }
            steps.lemma_linked_along_column(prev.x as int, prev.y as int, next.y as int);
            assert forall|x: int|
                between(prev.x as int, next.x as int, x) implies #[trigger] steps.is_open(
                Point { x: x as i32, y: next.y },
            ) by {
                let p = Point { x: x as i32, y: next.y };
                after.lemma_open_is_enterable(p);
                assert(after.tile_at(p).is_new(theme.floor()));
            }
            steps.lemma_linked_along_row(next.y as int, prev.x as int, next.x as int);
        }
        steps.lemma_linked_on(prev, corner, next);
    }

    /// Joins the rooms by corridors: the rooms are taken in the order of
    /// the columns of their middles, and from the middle of each a corridor
    /// is dug to the middle of the next, with its bend on the one side or
    /// the other as a coin falls.
    pub fn build_corridors(&mut self, mb: &mut MapBuilder, rng: &mut RandomNumberGenerator)
        requires
            Self::rooms_placed(*old(mb)),
            old(mb).map.dimensions.x <= 0x3fff_ffff,
            old(mb).map.dimensions.y <= 0x3fff_ffff,
        ensures
            Self::rooms_placed(*final(mb)),
            Self::centers_linked(final(mb).map, final(mb).rooms@),
            MapBuilder::rebuilt(*final(mb), *old(mb)),
            forall|p: Point| old(mb).map.enterable(p) ==> final(mb).map.enterable(p),
            forall|p: Point|
                old(mb).map.spec_in_bounds(p) ==> #[trigger] final(mb).map.tile_at(p) == old(
                    mb,
                ).map.tile_at(p) || final(mb).map.tile_at(p).is_new(old(mb).theme.floor()),
    {
        proof {
            assert forall|i: int| 0 <= i < mb.rooms.len() implies (#[trigger] mb.rooms[i]).has_center() by {
                Self::lemma_center_in_room(mb.map, mb.rooms[i]);
            }
        }
        let rooms: Vec<Rect> = Self::sort_by_center(&mb.rooms);
        let ghost start = *mb;
        assert(rooms@.to_multiset() == start.rooms@.to_multiset());
        proof {
            assert forall|k: int| 0 <= k < rooms.len() implies mb.rooms@.contains(
                #[trigger] rooms[k],
            ) by {
                assert(rooms@.contains(rooms[k]));
                lemma_same_items(rooms@, mb.rooms@, rooms[k]);
            }
        }
        if rooms.len() == 0 {
            return ;
        }
        let mut i: usize = 1;
        proof {
            let first = rooms[0].center_point();
            let r = choose|r: int| 0 <= r < start.rooms.len() && start.rooms[r] == rooms[0];
            Self::lemma_center_in_room(start.map, start.rooms[r]);
            let alone = seq![first];
            assert(mb.map.steps().is_walk(alone));
            assert(alone[0] == first && alone.last() == first);
        }
        while i < rooms.len()
            invariant
                1 <= i <= rooms.len(),
                Self::rooms_placed(start),
                start.map.dimensions.x <= 0x3fff_ffff,
                start.map.dimensions.y <= 0x3fff_ffff,
                Self::rooms_placed(*mb),
                MapBuilder::rebuilt(*mb, start),
                forall|k: int| 0 <= k < rooms.len() ==> start.rooms@.contains(#[trigger] rooms[k]),
                rooms@.to_multiset() == start.rooms@.to_multiset(),
                forall|p: Point| start.map.enterable(p) ==> mb.map.enterable(p),
                forall|p: Point|
                    start.map.spec_in_bounds(p) ==> #[trigger] mb.map.tile_at(p)
                        == start.map.tile_at(p) || mb.map.tile_at(p).is_new(start.theme.floor()),
                forall|a: int|
                    0 <= a < i ==> mb.map.linked(
                        rooms[0].center_point(),
                        (#[trigger] rooms[a]).center_point(),
                    ) && mb.map.linked(rooms[a].center_point(), rooms[0].center_point()),
            decreases rooms.len() - i,
        {
            proof {
                let r = choose|r: int| 0 <= r < start.rooms.len() && start.rooms[r] == rooms[i - 1];
                Self::lemma_center_in_room(start.map, start.rooms[r]);
                let r2 = choose|r: int|
                    0 <= r < start.rooms.len() && start.rooms[r] == rooms[i as int];
                Self::lemma_center_in_room(start.map, start.rooms[r2]);
                assert(start.map.floor_at(start.theme, rooms[i - 1].center_point()));
            }
            let prev: Point = rooms[i - 1].center();
            let next: Point = rooms[i].center();
            let horizontal_first: bool = roll_range(rng, 0, 2) == 1;
            let ghost before = *mb;
            self.connect(mb, prev, next, horizontal_first);
            proof {
                let first = rooms[0].center_point();
                Self::lemma_corridor_links(
                    before.map,
                    mb.map,
                    start.theme,
                    prev,
                    next,
                    horizontal_first,
                );
                Self::lemma_dug(before, *mb, |p: Point| Self::on_corridor(prev, next, horizontal_first, p));
                assert forall|p: Point| start.map.spec_in_bounds(p) implies #[trigger] mb.map.tile_at(
                    p,
                ) == start.map.tile_at(p) || mb.map.tile_at(p).is_new(start.theme.floor()) by {
                    assert(before.map.tile_at(p) == start.map.tile_at(p) || before.map.tile_at(
                        p,
                    ).is_new(start.theme.floor()));
                }
                assert(before.map.linked(first, prev));
                assert(before.map.linked(prev, first));
                mb.map.steps().lemma_linked_on(first, prev, next);
                mb.lemma_floor_is_enterable(prev);
                mb.map.lemma_open_is_enterable(prev);
                mb.map.steps().lemma_linked_back(prev, next);
                mb.map.steps().lemma_linked_on(next, prev, first);
                assert forall|a: int| 0 <= a < i + 1 implies mb.map.linked(
                    first,
                    (#[trigger] rooms[a]).center_point(),
                ) && mb.map.linked(rooms[a].center_point(), first) by {
                    if a < i {
                        assert(before.map.linked(first, rooms[a].center_point()));
                        assert(before.map.linked(rooms[a].center_point(), first));
                    }
                }
            }
            i = i + 1;
        }
        proof {
            let first = rooms[0].center_point();
            assert forall|a: int, b: int|
                0 <= a < mb.rooms.len() && 0 <= b < mb.rooms.len() implies mb.map.linked(
                (#[trigger] mb.rooms[a]).center_point(),
                (#[trigger] mb.rooms[b]).center_point(),
            ) by {
                assert(mb.rooms@.contains(mb.rooms[a]));
                assert(mb.rooms@.contains(mb.rooms[b]));
                assert(start.rooms@ == mb.rooms@);
                lemma_same_items(start.rooms@, rooms@, mb.rooms[a]);
                lemma_same_items(start.rooms@, rooms@, mb.rooms[b]);
                let ia = choose|k: int| 0 <= k < rooms.len() && rooms[k] == mb.rooms[a];
                let ib = choose|k: int| 0 <= k < rooms.len() && rooms[k] == mb.rooms[b];
                assert(mb.map.linked(rooms[ia].center_point(), first));
                assert(mb.map.linked(first, rooms[ib].center_point()));
                mb.map.steps().lemma_linked_on(
                    mb.rooms[a].center_point(),
                    first,
                    mb.rooms[b].center_point(),
                );
            }
        }
    }

    /// Digging floors keeps the rooms in order.
    pub proof fn lemma_dug(before: MapBuilder, after: MapBuilder, dug: spec_fn(Point) -> bool)
        requires
            Self::rooms_placed(before),
            MapBuilder::rebuilt(after, before),
            forall|p: Point|
                #![trigger after.map.tile_at(p)]
                before.map.spec_in_bounds(p) ==> (if dug(p) {
                    after.map.tile_at(p).is_new(before.theme.floor())
                } else {
                    after.map.tile_at(p) == before.map.tile_at(p)
                }),
        ensures
            Self::rooms_placed(after),
    {
        let theme = before.theme;
        assert forall|i: int| 0 <= i < after.map.tiles.len() implies (#[trigger] after.map.tiles[i]).is_new(
            theme.floor(),
        ) || after.map.tiles[i].is_new(theme.wall()) by {
            before.map.lemma_point_at_index(i);
            let p = Point {
                x: (i % (before.map.dimensions.x as int)) as i32,
                y: (i / (before.map.dimensions.x as int)) as i32,
            };
            assert(after.map.tile_at(p) == after.map.tiles[i]);
            assert(before.map.tile_at(p) == before.map.tiles[i]);
        }
        assert forall|i: int, p: Point|
            0 <= i < after.rooms.len() && (#[trigger] after.rooms[i]).covers(
                p,
            ) implies #[trigger] after.map.floor_at(theme, p) by {
            assert(Self::is_room(before.map, before.rooms[i]));
            assert(before.map.floor_at(theme, p));
            assert(after.map.tile_at(p) == after.map.tiles[after.map.index_of(p)]);
        }
    }

    /// `sorted` holds the rooms of `rooms` in the order of the columns of
    /// their middles, from west to east, those in the same column in the
    /// order in which `rooms` holds them: `from` says, for every place in
    /// `sorted`, at which place of `rooms` its room stands.
    pub open spec fn sorted_from(rooms: Seq<Rect>, sorted: Seq<Rect>, from: Seq<int>) -> bool {
        &&& from.len() == sorted.len()
        &&& from.no_duplicates()
        &&& forall|k: int|
            0 <= k < sorted.len() ==> 0 <= #[trigger] from[k] < rooms.len() && sorted[k]
                == rooms[from[k]]
        &&& forall|i: int, j: int|
            0 <= i < j < sorted.len() ==> (#[trigger] sorted[i]).center_point().x < (
            #[trigger] sorted[j]).center_point().x || (sorted[i].center_point().x
                == sorted[j].center_point().x && from[i] < from[j])
    }

    /// The rooms in the order of the columns of their middles, from west to
    /// east; rooms in the same column keep their order.
    pub fn sort_by_center(rooms: &Vec<Rect>) -> (sorted: Vec<Rect>)
        requires
            forall|i: int| 0 <= i < rooms.len() ==> (#[trigger] rooms[i]).has_center(),
        ensures
            sorted.len() == rooms.len(),
            sorted@.to_multiset() == rooms@.to_multiset(),
            exists|from: Seq<int>| #[trigger] Self::sorted_from(rooms@, sorted@, from),
    {
        let mut sorted: Vec<Rect> = Vec::new();
        let mut i: usize = 0;
        let ghost mut from: Seq<int> = Seq::empty();
        assert(rooms@.subrange(0, 0) =~= sorted@);
        while i < rooms.len()
            invariant
                i <= rooms.len(),
                sorted.len() == i,
                forall|k: int| 0 <= k < rooms.len() ==> (#[trigger] rooms[k]).has_center(),
                forall|k: int| 0 <= k < sorted.len() ==> (#[trigger] sorted[k]).has_center(),
                sorted@.to_multiset() == rooms@.subrange(0, i as int).to_multiset(),
                Self::sorted_from(rooms@, sorted@, from),
                forall|k: int| 0 <= k < from.len() ==> #[trigger] from[k] < i,
            decreases rooms.len() - i,
        {
            let room: Rect = rooms[i];
            let key: i32 = room.center().x;
            let mut pos: usize = 0;
            while pos < sorted.len() && sorted[pos].center().x <= key
                invariant
                    pos <= sorted.len(),
                    forall|k: int| 0 <= k < sorted.len() ==> (#[trigger] sorted[k]).has_center(),
                    forall|k: int| 0 <= k < pos ==> (#[trigger] sorted[k]).center_point().x <= key,
                decreases sorted.len() - pos,
            {
                pos = pos + 1;
            }
            let ghost before = sorted@;
            let ghost before_from = from;
            sorted.insert(pos, room);
            proof {
                from = before_from.insert(pos as int, i as int);
                before.insert_ensures(pos as int, room);
                before_from.insert_ensures(pos as int, i as int);
                lemma_insert_to_multiset(before, pos as int, room);
                let taken = rooms@.subrange(0, i as int);
                assert(rooms@.subrange(0, i as int + 1) =~= taken.push(room));
                vstd::seq_lib::to_multiset_build(taken, room);
                assert forall|k: int| 0 <= k < sorted.len() implies 0 <= #[trigger] from[k] < i + 1
                    && sorted[k] == rooms[from[k]] && sorted[k].has_center() by {
                    let k0 = if k < pos { k } else { k - 1 };
                    if k != pos {
                        assert(sorted[k] == before[k0]);
                        assert(from[k] == before_from[k0]);
                    }
                }
                assert forall|a: int, b: int|
                    0 <= a < from.len() && 0 <= b < from.len() && a != b implies from[a]
                    != from[b] by {
                    let a0 = if a < pos { a } else { a - 1 };
                    let b0 = if b < pos { b } else { b - 1 };
                    if a != pos {
                        assert(from[a] == before_from[a0]);
                    }
                    if b != pos {
                        assert(from[b] == before_from[b0]);
                    }
                }
                assert forall|a: int, b: int| 0 <= a < b < sorted.len() implies (
                #[trigger] sorted[a]).center_point().x < (#[trigger] sorted[b]).center_point().x
                    || (sorted[a].center_point().x == sorted[b].center_point().x && from[a]
                    < from[b]) by {
                    let a0 = if a < pos { a } else { a - 1 };
                    let b0 = if b < pos { b } else { b - 1 };
                    if a != pos {
                        assert(sorted[a] == before[a0]);
                        assert(from[a] == before_from[a0]);
                    }
                    if b != pos {
                        assert(sorted[b] == before[b0]);
                        assert(from[b] == before_from[b0]);
                    }
                    if a == pos {
                        // the rooms behind the new one lie farther east
                        if pos < before.len() {
                            assert(before[pos as int].center_point().x > key);
                            if b0 > pos {
                                assert(before[pos as int].center_point().x <= before[b0].center_point().x);
                            }
                        }
                    }
                }
            }
            i = i + 1;
        }
        assert(rooms@.subrange(0, rooms.len() as int) =~= rooms@);
        sorted
    }

    /// Turns the tiles of the room into floor.
    pub fn carve(mb: &mut MapBuilder, room: &Rect)
        requires
            old(mb).map.wf(),
        ensures
            MapBuilder::rebuilt(*final(mb), *old(mb)),
            forall|p: Point|
                #![trigger final(mb).map.tile_at(p)]
                old(mb).map.spec_in_bounds(p) ==> (if Self::in_room(*room, p) {
                    final(mb).map.tile_at(p).is_new(old(mb).theme.floor())
                } else {
                    final(mb).map.tile_at(p) == old(mb).map.tile_at(p)
                }),
    {
        let ghost start = *mb;
        let mut y: i32 = room.y1;
        while y < room.y2
            invariant
                start.map.wf(),
                start == *old(mb),
                room.y1 <= y,
                MapBuilder::rebuilt(*mb, start),
                forall|p: Point|
                    #![trigger mb.map.tile_at(p)]
                    start.map.spec_in_bounds(p) ==> (if Self::in_room(*room, p) && p.y < y {
                        mb.map.tile_at(p).is_new(start.theme.floor())
                    } else {
                        mb.map.tile_at(p) == start.map.tile_at(p)
                    }),
            decreases room.y2 - y,
        {
            let mut x: i32 = room.x1;
            while x < room.x2
                invariant
                    start.map.wf(),
                    start == *old(mb),
                    room.y1 <= y < room.y2,
                    room.x1 <= x,
                    MapBuilder::rebuilt(*mb, start),
                    forall|p: Point|
                        #![trigger mb.map.tile_at(p)]
                        start.map.spec_in_bounds(p) ==> (if Self::in_room(*room, p) && (p.y < y || (
                        p.y == y && p.x < x)) {
                            mb.map.tile_at(p).is_new(start.theme.floor())
                        } else {
                            mb.map.tile_at(p) == start.map.tile_at(p)
                        }),
                decreases room.x2 - x,
            {
                let here = Point { x, y };
                let ghost prev = *mb;
                if x > 0 && x < mb.map.dimensions.x && y > 0 && y < mb.map.dimensions.y {
                    mb.place(here, TileType::ThemeFloor);
                    proof {
                        prev.map.lemma_index(here);
                        assert forall|p: Point|
                            prev.map.spec_in_bounds(p) && p != here implies #[trigger] mb.map.tile_at(
                            p,
                        ) == prev.map.tile_at(p) by {
                            prev.map.lemma_index(p);
                            assert(mb.map.index_of(p) == prev.map.index_of(p));
                        }
                    }
                }
                x = x + 1;
            }
            y = y + 1;
        }
    }
}

/// Two lists that hold the same items as often hold the same items.
pub proof fn lemma_same_items(a: Seq<Rect>, b: Seq<Rect>, item: Rect)
    requires
        a.to_multiset() == b.to_multiset(),
        a.contains(item),
    ensures
        b.contains(item),
{
    a.to_multiset_ensures();
    b.to_multiset_ensures();
    assert(a.to_multiset().count(item) > 0);
    assert(b.to_multiset().count(item) > 0);
}

/// A list with one more item holds what it held before and the item.
pub proof fn lemma_insert_to_multiset(s: Seq<Rect>, pos: int, item: Rect)
    requires
        0 <= pos <= s.len(),
    ensures
        s.insert(pos, item).to_multiset() == s.to_multiset().insert(item),
{
    let t = s.insert(pos, item);
    s.insert_ensures(pos, item);
    assert(t.remove(pos) =~= s);
    vstd::seq_lib::to_multiset_remove(t, pos);
    t.to_multiset_ensures();
    assert(t.contains(item)) by {
        assert(t[pos] == item);
    }
    assert(t.to_multiset() =~= s.to_multiset().insert(item));
}

} // verus!
