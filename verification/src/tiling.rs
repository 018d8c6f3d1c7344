//! The quadtree of web-mercator tiles and where their data comes from.
use crate::text::{chars_of, decimal_text, replace_all, text_of};
#[allow(unused_imports)]
use crate::text::{decimal, lemma_decimal_is_digits, lemma_replaced_by_digits, occurs, replaced};
use vstd::arithmetic::power2::pow2;
use vstd::prelude::*;

verus! {

pub const DEFAULT_TERRAIN_MAX_ZOOM: u8 = 15;

pub const DEFAULT_IMAGERY_MAX_ZOOM: u8 = 19;

/// The deepest zoom that a source may offer.
pub const MAX_SOURCE_ZOOM: u8 = 22;

/// The deepest zoom that the tree descends to.
pub const MAX_TREE_ZOOM: u8 = 20;

/// A tile: `x` counts columns eastward and `y` rows southward, of `2^z` each.
#[derive(Copy, Clone, PartialEq, Eq, Hash, Debug, PartialOrd, Ord, Structural)]
pub struct TileKey {
    pub z: u8,
    pub x: u32,
    pub y: u32,
}

/// The tile `levels` levels above `key` that covers it.
pub open spec fn ancestor_of(key: TileKey, levels: nat) -> TileKey {
    TileKey {
        z: (key.z - levels) as u8,
        x: (key.x as nat / pow2(levels)) as u32,
        y: (key.y as nat / pow2(levels)) as u32,
    }
}

/// The `i`-th quarter of `key`: west to east, then north to south.
pub open spec fn child_of(key: TileKey, i: nat) -> TileKey {
    TileKey {
        z: (key.z + 1) as u8,
        x: (2 * key.x + i % 2) as u32,
        y: (2 * key.y + i / 2) as u32,
    }
}

/// Whether `key` is a tile of its level's grid.
pub open spec fn on_grid(key: TileKey) -> bool {
    key.x < pow2(key.z as nat) && key.y < pow2(key.z as nat)
}

/// Whether the ground of `b` lies within that of `a`.
pub open spec fn covers(a: TileKey, b: TileKey) -> bool {
    a.z <= b.z && ancestor_of(b, (b.z - a.z) as nat) == a
}

impl TileKey {
    /// The `i`-th quarter of this tile.
    pub fn child(&self, i: u32) -> (child: TileKey)
        requires
            self.z < u8::MAX,
            2 * self.x + i % 2 <= u32::MAX,
            2 * self.y + i / 2 <= u32::MAX,
        ensures
            child == child_of(*self, i as nat),
    {
        assert(i & 1 == i % 2) by (bit_vector);
        assert(i >> 1 == i / 2) by (bit_vector);
        TileKey { z: self.z + 1, x: self.x * 2 + (i & 1), y: self.y * 2 + (i >> 1) }
    }

    /// The tile `levels` levels up that covers this one.
    pub fn ancestor(&self, levels: u8) -> (ancestor: TileKey)
        requires
            levels <= self.z,
            levels < 32,
        ensures
            ancestor == ancestor_of(*self, levels as nat),
    {
        proof {
            vstd::bits::lemma_u32_shr_is_div(self.x, levels as u32);
            vstd::bits::lemma_u32_shr_is_div(self.y, levels as u32);
        }
        TileKey {
            z: self.z - levels,
            x: self.x >> (levels as u32),
            y: self.y >> (levels as u32),
        }
    }
}

/// Going up by nothing stays.
pub proof fn lemma_ancestor_of_none(key: TileKey)
    ensures
        ancestor_of(key, 0) == key,
{
    vstd::arithmetic::power2::lemma2_to64();
}

/// Going up in two steps is going up once.
pub proof fn lemma_ancestor_of_ancestor(key: TileKey, a: nat, b: nat)
    requires
        a + b <= key.z,
    ensures
        ancestor_of(ancestor_of(key, a), b) == ancestor_of(key, a + b),
{
    vstd::arithmetic::power2::lemma_pow2_adds(a, b);
    vstd::arithmetic::power2::lemma_pow2_pos(a);
    vstd::arithmetic::power2::lemma_pow2_pos(b);
    lemma_quotient_fits(key.x, a);
    lemma_quotient_fits(key.y, a);
    vstd::arithmetic::div_mod::lemma_div_denominator(
        key.x as int,
        pow2(a) as int,
        pow2(b) as int,
    );
    vstd::arithmetic::div_mod::lemma_div_denominator(
        key.y as int,
        pow2(a) as int,
        pow2(b) as int,
    );
}

proof fn lemma_quotient_fits(x: u32, levels: nat)
    ensures
        0 <= x as nat / pow2(levels) <= x,
{
    vstd::arithmetic::power2::lemma_pow2_pos(levels);
    vstd::arithmetic::div_mod::lemma_div_nonincreasing(x as int, pow2(levels) as int);
    vstd::arithmetic::div_mod::lemma_div_pos_is_pos(x as int, pow2(levels) as int);
}

/// Each of the four quarters of a tile has that tile as its parent.
pub proof fn lemma_parent_of_child(key: TileKey, i: nat)
    requires
        i < 4,
        key.z < u8::MAX,
        2 * key.x + 1 <= u32::MAX,
        2 * key.y + 1 <= u32::MAX,
    ensures
        ancestor_of(child_of(key, i), 1) == key,
        covers(key, child_of(key, i)),
{
    vstd::arithmetic::power2::lemma2_to64();
    let child = child_of(key, i);
    assert(child.x == 2 * key.x + i % 2 && child.y == 2 * key.y + i / 2);
    assert(child.z - key.z == 1);
    assert(ancestor_of(child, 1) == key);
}

/// The quarters of a tile of the grid are tiles of the grid, and differ.
pub proof fn lemma_children_on_grid(key: TileKey)
    requires
        on_grid(key),
        key.z < 31,
    ensures
        2 * key.x + 1 <= u32::MAX,
        2 * key.y + 1 <= u32::MAX,
        forall|i: nat| i < 4 ==> on_grid(#[trigger] child_of(key, i)),
        forall|i: nat, j: nat|
            i < j < 4 ==> #[trigger] child_of(key, i) != #[trigger] child_of(key, j),
{
    vstd::arithmetic::power2::lemma_pow2_unfold((key.z + 1) as nat);
    vstd::arithmetic::power2::lemma2_to64();
    if key.z < 30 {
        vstd::arithmetic::power2::lemma_pow2_strictly_increases((key.z + 1) as nat, 31);
    }
}

/// A tile of the grid below the root is one of the quarters of its parent.
pub proof fn lemma_child_of_parent(key: TileKey)
    requires
        key.z > 0,
    ensures
        child_of(ancestor_of(key, 1), (key.x % 2 + 2 * (key.y % 2)) as nat) == key,
{
    vstd::arithmetic::power2::lemma2_to64();
}

/// What covers a covering tile covers what that one covers.
pub proof fn lemma_covers_transitive(a: TileKey, b: TileKey, c: TileKey)
    requires
        covers(a, b),
        covers(b, c),
    ensures
        covers(a, c),
{
    lemma_ancestor_of_ancestor(c, (c.z - b.z) as nat, (b.z - a.z) as nat);
}

/// Of two tiles that share ground, one covers the other.
pub proof fn lemma_covers_comparable(a: TileKey, b: TileKey, c: TileKey)
    requires
        covers(a, c),
        covers(b, c),
    ensures
        covers(a, b) || covers(b, a),
{
    if a.z <= b.z {
        lemma_ancestor_of_ancestor(c, (c.z - b.z) as nat, (b.z - a.z) as nat);
    } else {
        lemma_ancestor_of_ancestor(c, (c.z - a.z) as nat, (a.z - b.z) as nat);
    }
}

/// Two tiles that cover each other are one.
pub proof fn lemma_covers_antisymmetric(a: TileKey, b: TileKey)
    requires
        covers(a, b),
        covers(b, a),
    ensures
        a == b,
{
    lemma_ancestor_of_none(b);
}

/// Where tiles come from: a URL template and a deepest zoom for each kind.
pub struct Sources {
    pub terrain: String,
    pub terrain_max_zoom: u8,
    pub imagery: String,
    pub imagery_max_zoom: u8,
}

/// The sources that a fresh renderer reads.
pub fn default_sources() -> (sources: Sources)
    ensures
        sources.terrain@
            == "https://s3.amazonaws.com/elevation-tiles-prod/terrarium/{z}/{x}/{y}.png"@,
        sources.terrain_max_zoom == DEFAULT_TERRAIN_MAX_ZOOM,
        sources.imagery@
            == "https://server.arcgisonline.com/ArcGIS/rest/services/World_Imagery/MapServer/tile/{z}/{y}/{x}"@,
        sources.imagery_max_zoom == DEFAULT_IMAGERY_MAX_ZOOM,
        sources.wf(),
{
    Sources {
        terrain: "https://s3.amazonaws.com/elevation-tiles-prod/terrarium/{z}/{x}/{y}.png".to_owned(),
        terrain_max_zoom: DEFAULT_TERRAIN_MAX_ZOOM,
        imagery:
            "https://server.arcgisonline.com/ArcGIS/rest/services/World_Imagery/MapServer/tile/{z}/{y}/{x}".to_owned(),
        imagery_max_zoom: DEFAULT_IMAGERY_MAX_ZOOM,
    }
}

/// The lesser of two zooms.
pub open spec fn zoom_min(a: u8, b: u8) -> u8 {
    if a <= b {
        a
    } else {
        b
    }
}

impl Sources {
    /// Whether no source reaches deeper than any source may.
    pub open spec fn wf(&self) -> bool {
        self.terrain_max_zoom <= MAX_SOURCE_ZOOM && self.imagery_max_zoom <= MAX_SOURCE_ZOOM
    }

    /// The deepest zoom that the tree descends to with these sources.
    pub open spec fn deepest(&self) -> u8 {
        zoom_min(
            if self.terrain_max_zoom >= self.imagery_max_zoom {
                self.terrain_max_zoom
            } else {
                self.imagery_max_zoom
            },
            MAX_TREE_ZOOM,
        )
    }
}

/// Reads terrain from `template` from now on, no deeper than `max_zoom`.
pub fn set_terrain_source(sources: &mut Sources, template: &str, max_zoom: u8)
    ensures
        final(sources).terrain@ == template@,
        final(sources).terrain_max_zoom == zoom_min(max_zoom, MAX_SOURCE_ZOOM),
        final(sources).imagery == old(sources).imagery,
        final(sources).imagery_max_zoom == old(sources).imagery_max_zoom,
        old(sources).wf() ==> final(sources).wf(),
{
    sources.terrain = template.to_owned();
    sources.terrain_max_zoom = if max_zoom <= MAX_SOURCE_ZOOM {
        max_zoom
    } else {
        MAX_SOURCE_ZOOM
    };
}

/// Reads imagery from `template` from now on, no deeper than `max_zoom`.
pub fn set_imagery_source(sources: &mut Sources, template: &str, max_zoom: u8)
    ensures
        final(sources).imagery@ == template@,
        final(sources).imagery_max_zoom == zoom_min(max_zoom, MAX_SOURCE_ZOOM),
        final(sources).terrain == old(sources).terrain,
        final(sources).terrain_max_zoom == old(sources).terrain_max_zoom,
        old(sources).wf() ==> final(sources).wf(),
{
    sources.imagery = template.to_owned();
    sources.imagery_max_zoom = if max_zoom <= MAX_SOURCE_ZOOM {
        max_zoom
    } else {
        MAX_SOURCE_ZOOM
    };
}

pub fn terrain_max_zoom(sources: &Sources) -> (zoom: u8)
    ensures
        zoom == sources.terrain_max_zoom,
{
    sources.terrain_max_zoom
}

pub fn imagery_max_zoom(sources: &Sources) -> (zoom: u8)
    ensures
        zoom == sources.imagery_max_zoom,
{
    sources.imagery_max_zoom
}

/// The deepest zoom that the tree descends to.
pub fn max_tile_zoom(sources: &Sources) -> (zoom: u8)
    ensures
        zoom == sources.deepest(),
{
    let deeper: u8 = if sources.terrain_max_zoom >= sources.imagery_max_zoom {
        sources.terrain_max_zoom
    } else {
        sources.imagery_max_zoom
    };
    if deeper <= MAX_TREE_ZOOM {
        deeper
    } else {
        MAX_TREE_ZOOM
    }
}

/// The URL of a tile: `{z}`, `{x}` and `{y}` of the template in decimal.
pub open spec fn tile_url(template: Seq<char>, key: TileKey) -> Seq<char> {
    replaced(
        replaced(
            replaced(template, seq!['{', 'z', '}'], decimal(key.z as nat)),
            seq!['{', 'x', '}'],
            decimal(key.x as nat),
        ),
        seq!['{', 'y', '}'],
        decimal(key.y as nat),
    )
}

/// Fills a URL template with the numbers of a tile.
pub fn fill(template: &str, k: TileKey) -> (url: String)
    ensures
        url@ == tile_url(template@, k),
{
    let z_mark: Vec<char> = vec!['{', 'z', '}'];
    let x_mark: Vec<char> = vec!['{', 'x', '}'];
    let y_mark: Vec<char> = vec!['{', 'y', '}'];
    assert(z_mark@ =~= seq!['{', 'z', '}']);
    assert(x_mark@ =~= seq!['{', 'x', '}']);
    assert(y_mark@ =~= seq!['{', 'y', '}']);
    let z: Vec<char> = chars_of(decimal_text(k.z as u64).as_str());
    let x: Vec<char> = chars_of(decimal_text(k.x as u64).as_str());
    let y: Vec<char> = chars_of(decimal_text(k.y as u64).as_str());
    let with_z: Vec<char> = replace_all(&chars_of(template), &z_mark, &z);
    let with_x: Vec<char> = replace_all(&with_z, &x_mark, &x);
    text_of(&replace_all(&with_x, &y_mark, &y))
}

pub fn terrain_url(sources: &Sources, k: TileKey) -> (url: String)
    ensures
        url@ == tile_url(sources.terrain@, k),
{
    fill(sources.terrain.as_str(), k)
}

pub fn imagery_url(sources: &Sources, k: TileKey) -> (url: String)
    ensures
        url@ == tile_url(sources.imagery@, k),
{
    fill(sources.imagery.as_str(), k)
}

/// Where a tile lies within the tile `levels` levels up: that one is divided into
/// `span` columns and rows, and the tile is at column `du`, row `dv`.
#[derive(Copy, Clone, PartialEq, Eq, Debug, Structural)]
pub struct UvWindow {
    pub span: u32,
    pub du: u32,
    pub dv: u32,
}

/// The place of `key` within the tile `levels` levels up.
pub open spec fn window_of(key: TileKey, levels: nat) -> UvWindow {
    UvWindow {
        span: pow2(levels) as u32,
        du: (key.x as nat % pow2(levels)) as u32,
        dv: (key.y as nat % pow2(levels)) as u32,
    }
}

/// The place of `key` within the tile `levels` levels up.
pub fn uv_window(key: TileKey, levels: u8) -> (window: UvWindow)
    requires
        levels < 32,
    ensures
        window == window_of(key, levels as nat),
{
    proof {
        vstd::bits::lemma_u32_pow2_no_overflow(levels as nat);
        vstd::bits::lemma_u32_shl_is_mul(1, levels as u32);
        vstd::arithmetic::power2::lemma_pow2_pos(levels as nat);
    }
    let span: u32 = 1u32 << (levels as u32);
    UvWindow { span, du: key.x % span, dv: key.y % span }
}

/// A tile is found again from the tile above it and its place therein, and no
/// place lies outside.
pub proof fn lemma_window_restores_tile(key: TileKey, levels: nat)
    requires
        levels <= key.z,
        levels < 32,
    ensures
        ancestor_of(key, levels).z + levels == key.z,
        window_of(key, levels).span == pow2(levels),
        ancestor_of(key, levels).x * window_of(key, levels).span + window_of(key, levels).du
            == key.x,
        ancestor_of(key, levels).y * window_of(key, levels).span + window_of(key, levels).dv
            == key.y,
        window_of(key, levels).du < window_of(key, levels).span,
        window_of(key, levels).dv < window_of(key, levels).span,
{
    vstd::bits::lemma_u32_pow2_no_overflow(levels);
    vstd::arithmetic::power2::lemma_pow2_pos(levels);
    lemma_quotient_fits(key.x, levels);
    lemma_quotient_fits(key.y, levels);
    vstd::arithmetic::div_mod::lemma_fundamental_div_mod(key.x as int, pow2(levels) as int);
    vstd::arithmetic::div_mod::lemma_fundamental_div_mod(key.y as int, pow2(levels) as int);
    vstd::arithmetic::mul::lemma_mul_is_commutative(
        key.x as int / pow2(levels) as int,
        pow2(levels) as int,
    );
    vstd::arithmetic::mul::lemma_mul_is_commutative(
        key.y as int / pow2(levels) as int,
        pow2(levels) as int,
    );
}

/// How far above `key` its terrain is read: a tile deeper than the source takes
/// its part of the deepest tile that the source has.
pub open spec fn terrain_levels(sources: &Sources, key: TileKey) -> nat {
    if key.z <= sources.terrain_max_zoom {
        0
    } else {
        (key.z - sources.terrain_max_zoom) as nat
    }
}

/// The terrain image of a tile, and the part of it that the tile shows.
pub fn terrain_source(sources: &Sources, k: TileKey) -> (source: (String, UvWindow))
    requires
        terrain_levels(sources, k) < 32,
    ensures
        source.0@ == tile_url(sources.terrain@, ancestor_of(k, terrain_levels(sources, k))),
        source.1 == window_of(k, terrain_levels(sources, k)),
{
    let max: u8 = terrain_max_zoom(sources);
    if k.z <= max {
        proof {
            lemma_ancestor_of_none(k);
        }
        return (terrain_url(sources, k), uv_window(k, 0));
    }
    let levels: u8 = k.z - max;
    (terrain_url(sources, k.ancestor(levels)), uv_window(k, levels))
}

/// The number of a tile: one for each level, column and row.
pub open spec fn tile_number(key: TileKey) -> int {
    key.z * 0x1_0000_0000_0000_0000 + key.x * 0x1_0000_0000 + key.y
}

/// Different tiles have different numbers.
pub proof fn lemma_tile_numbers_differ(a: TileKey, b: TileKey)
    ensures
        tile_number(a) == tile_number(b) <==> a == b,
        0 <= tile_number(a) <= u128::MAX,
{
}

impl TileKey {
    /// The number of this tile.
    pub fn number(&self) -> (number: u128)
        ensures
            number == tile_number(*self),
    {
        self.z as u128 * 0x1_0000_0000_0000_0000 + self.x as u128 * 0x1_0000_0000 + self.y as u128
    }
}

/// The `i`-th tile of the block of nine around `key`, row by row, where the grid
/// has one.
pub open spec fn neighbour_of(key: TileKey, i: int) -> Option<TileKey> {
    let x = key.x + i % 3 - 1;
    let y = key.y + i / 3 - 1;
    if 0 <= x < pow2(key.z as nat) && 0 <= y < pow2(key.z as nat) {
        Some(TileKey { z: key.z, x: x as u32, y: y as u32 })
    } else {
        None
    }
}

impl TileKey {
    /// The `i`-th tile of the block of nine around this one.
    pub fn neighbour(&self, i: u32) -> (neighbour: Option<TileKey>)
        requires
            self.z < 32,
            i < 9,
        ensures
            neighbour == neighbour_of(*self, i as int),
            neighbour matches Some(n) ==> on_grid(n) && n.z == self.z,
    {
        proof {
            vstd::bits::lemma_u32_pow2_no_overflow(self.z as nat);
            vstd::bits::lemma_u32_shl_is_mul(1, self.z as u32);
        }
        let n: i64 = (1u32 << (self.z as u32)) as i64;
        let x: i64 = self.x as i64 + (i % 3) as i64 - 1;
        let y: i64 = self.y as i64 + (i / 3) as i64 - 1;
        if x < 0 || y < 0 || x >= n || y >= n {
            None
        } else {
            Some(TileKey { z: self.z, x: x as u32, y: y as u32 })
        }
    }
}

/// A tile of the grid is in the middle of its block.
pub proof fn lemma_block_around_tile(key: TileKey)
    requires
        on_grid(key),
    ensures
        neighbour_of(key, 4) == Some(key),
{
}

/// A URL that was filled has no placeholder left.
pub proof fn lemma_url_is_filled(template: Seq<char>, key: TileKey)
    ensures
        !occurs(tile_url(template, key), seq!['{', 'z', '}']),
        !occurs(tile_url(template, key), seq!['{', 'x', '}']),
        !occurs(tile_url(template, key), seq!['{', 'y', '}']),
{
    let z = seq!['{', 'z', '}'];
    let x = seq!['{', 'x', '}'];
    let y = seq!['{', 'y', '}'];
    let dz = decimal(key.z as nat);
    let dx = decimal(key.x as nat);
    let dy = decimal(key.y as nat);
    lemma_decimal_is_digits(key.z as nat);
    lemma_decimal_is_digits(key.x as nat);
    lemma_decimal_is_digits(key.y as nat);
    let with_z = replaced(template, z, dz);
    let with_x = replaced(with_z, x, dx);
    lemma_replaced_by_digits(template, z, dz, z);
    lemma_replaced_by_digits(with_z, x, dx, z);
    lemma_replaced_by_digits(with_z, x, dx, x);
    lemma_replaced_by_digits(with_x, y, dy, z);
    lemma_replaced_by_digits(with_x, y, dy, x);
    lemma_replaced_by_digits(with_x, y, dy, y);
}

/// One tile covers another if and only if the other lies deeper, between the columns and the
/// rows that its quarters, their quarters and so on take up.
pub proof fn lemma_covers_is_ground(a: TileKey, b: TileKey)
    ensures
        covers(a, b) <==> a.z <= b.z && ({
            let side = pow2((b.z - a.z) as nat);
            &&& a.x * side <= b.x < a.x * side + side
            &&& a.y * side <= b.y < a.y * side + side
        }),
{
    if a.z <= b.z {
        let side = pow2((b.z - a.z) as nat);
        vstd::arithmetic::power2::lemma_pow2_pos((b.z - a.z) as nat);
        lemma_quotient_fits(b.x, (b.z - a.z) as nat);
        lemma_quotient_fits(b.y, (b.z - a.z) as nat);
        lemma_quotient_between(b.x as int, a.x as int, side as int);
        lemma_quotient_between(b.y as int, a.y as int, side as int);
    }
}

proof fn lemma_quotient_between(x: int, q: int, d: int)
    requires
        d > 0,
    ensures
        x / d == q <==> q * d <= x < q * d + d,
{
    vstd::arithmetic::div_mod::lemma_fundamental_div_mod(x, d);
    vstd::arithmetic::div_mod::lemma_mod_bound(x, d);
    vstd::arithmetic::mul::lemma_mul_is_commutative(x / d, d);
    if q * d <= x < q * d + d {
        vstd::arithmetic::div_mod::lemma_fundamental_div_mod_converse(x, d, q, x - q * d);
    }
}

/// The tree descends as deep as the deeper source reaches, though no deeper than twenty
/// levels.
pub proof fn lemma_depth_of_tree(sources: &Sources)
    ensures
        sources.deepest() <= 20,
        sources.deepest() <= sources.terrain_max_zoom || sources.deepest()
            <= sources.imagery_max_zoom,
        sources.terrain_max_zoom <= 20 ==> sources.deepest() >= sources.terrain_max_zoom,
        sources.imagery_max_zoom <= 20 ==> sources.deepest() >= sources.imagery_max_zoom,
        sources.terrain_max_zoom >= 20 || sources.imagery_max_zoom >= 20 ==> sources.deepest()
            == 20,
{
}

/// The block of nine around a tile holds every tile of the grid that touches it, each once,
/// and no other.
pub proof fn lemma_block_touches(key: TileKey, i: int, j: int, near: TileKey)
    requires
        key.z < 32,
        0 <= i < 9,
        0 <= j < 9,
    ensures
        neighbour_of(key, i) matches Some(n) ==> n.z == key.z && -1 <= n.x - key.x <= 1 && -1
            <= n.y - key.y <= 1 && n.x < pow2(key.z as nat) && n.y < pow2(key.z as nat),
        neighbour_of(key, i) is Some && neighbour_of(key, i) == neighbour_of(key, j) ==> i == j,
        near.z == key.z && -1 <= near.x - key.x <= 1 && -1 <= near.y - key.y <= 1 && near.x < pow2(
            key.z as nat,
        ) && near.y < pow2(key.z as nat) ==> neighbour_of(
            key,
            3 * (near.y - key.y + 1) + (near.x - key.x + 1),
        ) == Some(near),
{
    vstd::bits::lemma_u32_pow2_no_overflow(key.z as nat);
    let c = near.x - key.x + 1;
    let r = near.y - key.y + 1;
    if 0 <= c <= 2 && 0 <= r <= 2 {
        assert((3 * r + c) % 3 == c && (3 * r + c) / 3 == r);
    }
}

/// Whether a text holds no placeholder, as it holds nothing that could begin one.
pub open spec fn plain(text: Seq<char>) -> bool {
    forall|i: int| 0 <= i < text.len() ==> #[trigger] text[i] != '{'
}

proof fn lemma_mark_replaced(
    before: Seq<char>,
    mark: char,
    after: Seq<char>,
    with: Seq<char>,
)
    requires
        plain(before),
        !occurs(after, seq!['{', mark, '}']),
    ensures
        replaced(before + seq!['{', mark, '}'] + after, seq!['{', mark, '}'], with) == before
            + with + after,
{
    let pattern = seq!['{', mark, '}'];
    crate::text::lemma_first_replaced(before, pattern, after, with);
    crate::text::lemma_nothing_replaced(after, pattern, with);
}

proof fn lemma_other_mark(before: Seq<char>, mark: char, after: Seq<char>, other: char)
    requires
        plain(before),
        mark != other,
        mark != '{',
        !occurs(after, seq!['{', other, '}']),
    ensures
        !occurs(before + seq!['{', mark, '}'] + after, seq!['{', other, '}']),
{
    let text = before + seq!['{', mark, '}'] + after;
    let pattern = seq!['{', other, '}'];
    if occurs(text, pattern) {
        let at = choose|at: int| crate::text::occurs_at(text, pattern, at);
        let found = text.subrange(at, at + 3);
        assert(found[0] == text[at] && found[1] == text[at + 1] && found[2] == text[at + 2]);
        let n = before.len() as int;
        if at < n {
            assert(text[at] == before[at]);
        } else if at < n + 3 {
            assert(text[n] == '{' && text[n + 1] == mark && text[n + 2] == '}');
            assert(at == n || at == n + 1 || at == n + 2);
        } else {
            let k = at - n - 3;
            assert(after.subrange(k, k + 3) =~= pattern);
            assert(crate::text::occurs_at(after, pattern, k));
        }
    }
}

proof fn lemma_plain_lacks(text: Seq<char>, mark: char)
    requires
        plain(text),
    ensures
        !occurs(text, seq!['{', mark, '}']),
{
    let pattern = seq!['{', mark, '}'];
    if occurs(text, pattern) {
        let at = choose|at: int| crate::text::occurs_at(text, pattern, at);
        assert(text.subrange(at, at + 3)[0] == text[at]);
    }
}

proof fn lemma_digits_plain(n: nat)
    ensures
        plain(decimal(n)),
{
    lemma_decimal_is_digits(n);
    assert forall|i: int| 0 <= i < decimal(n).len() implies #[trigger] decimal(n)[i] != '{' by {
        assert(crate::text::is_digit(decimal(n)[i]));
    }
}

/// A template that names a tile's zoom, then its column and then its row, or its row and then
/// its column, is filled with these numbers in their places. All else of it stays.
pub proof fn lemma_url_filled_in_place(
    a: Seq<char>,
    b: Seq<char>,
    c: Seq<char>,
    d: Seq<char>,
    key: TileKey,
)
    requires
        plain(a),
        plain(b),
        plain(c),
        plain(d),
    ensures
        tile_url(
            a + seq!['{', 'z', '}'] + (b + seq!['{', 'x', '}'] + (c + seq!['{', 'y', '}'] + d)),
            key,
        ) == a + decimal(key.z as nat) + (b + decimal(key.x as nat) + (c + decimal(key.y as nat)
            + d)),
        tile_url(
            a + seq!['{', 'z', '}'] + (b + seq!['{', 'y', '}'] + (c + seq!['{', 'x', '}'] + d)),
            key,
        ) == a + decimal(key.z as nat) + (b + decimal(key.y as nat) + (c + decimal(key.x as nat)
            + d)),
{
    let dz = decimal(key.z as nat);
    let dx = decimal(key.x as nat);
    let dy = decimal(key.y as nat);
    lemma_digits_plain(key.z as nat);
    lemma_digits_plain(key.x as nat);
    lemma_digits_plain(key.y as nat);
    let x = seq!['{', 'x', '}'];
    let y = seq!['{', 'y', '}'];
    let z = seq!['{', 'z', '}'];
    lemma_plain_lacks(d, 'x');
    lemma_plain_lacks(d, 'y');
    lemma_plain_lacks(d, 'z');
    let head = a + dz + b;
    assert(plain(head));
    // The column first.
    lemma_other_mark(c, 'y', d, 'x');
    lemma_other_mark(c, 'y', d, 'z');
    lemma_other_mark(b, 'x', c + y + d, 'z');
    lemma_mark_replaced(a, 'z', b + x + (c + y + d), dz);
    assert(a + dz + (b + x + (c + y + d)) =~= head + x + (c + y + d));
    lemma_mark_replaced(head, 'x', c + y + d, dx);
    assert(plain(head + dx + c));
    assert(head + dx + (c + y + d) =~= (head + dx + c) + y + d);
    lemma_mark_replaced(head + dx + c, 'y', d, dy);
    assert((head + dx + c) + dy + d =~= a + dz + (b + dx + (c + dy + d)));
    // The row first.
    lemma_other_mark(c, 'x', d, 'y');
    lemma_other_mark(c, 'x', d, 'z');
    lemma_other_mark(b, 'y', c + x + d, 'z');
    lemma_mark_replaced(a, 'z', b + y + (c + x + d), dz);
    assert(a + dz + (b + y + (c + x + d)) =~= (head + y + c) + x + d);
    crate::text::lemma_nothing_replaced(d, x, dx);
    lemma_row_before_column(head, c, d, dx, dy);
    assert(head + dy + (c + dx + d) =~= a + dz + (b + dy + (c + dx + d)));
}

proof fn lemma_row_before_column(
    head: Seq<char>,
    c: Seq<char>,
    d: Seq<char>,
    dx: Seq<char>,
    dy: Seq<char>,
)
    requires
        plain(head),
        plain(c),
        plain(d),
        plain(dx),
    ensures
        replaced(
            replaced(
                (head + seq!['{', 'y', '}'] + c) + seq!['{', 'x', '}'] + d,
                seq!['{', 'x', '}'],
                dx,
            ),
            seq!['{', 'y', '}'],
            dy,
        ) == head + dy + (c + dx + d),
{
    let x = seq!['{', 'x', '}'];
    let y = seq!['{', 'y', '}'];
    let tail = c + x + d;
    lemma_plain_lacks(d, 'x');
    lemma_skipped_over(head, 'y', tail, 'x', dx);
    assert((head + y + c) + x + d =~= head + y + tail);
    lemma_mark_replaced(c, 'x', d, dx);
    assert(plain(c + dx + d));
    lemma_plain_lacks(c + dx + d, 'y');
    lemma_mark_replaced(head, 'y', c + dx + d, dy);
}

/// What is replaced lies behind another placeholder.
proof fn lemma_skipped_over(
    before: Seq<char>,
    mark: char,
    after: Seq<char>,
    other: char,
    with: Seq<char>,
)
    requires
        plain(before),
        mark != other,
        mark != '{',
    ensures
        replaced(before + seq!['{', mark, '}'] + after, seq!['{', other, '}'], with) == before
            + seq!['{', mark, '}'] + replaced(after, seq!['{', other, '}'], with),
    decreases before.len(),
{
    let pattern = seq!['{', other, '}'];
    let middle = seq!['{', mark, '}'];
    let text = before + middle + after;
    assert(text.take(3)[0] == text[0] && text.take(3)[1] == text[1]);
    if before.len() == 0 {
        assert(text[0] == '{' && text[1] == mark && text[2] == '}');
        let one = text.skip(1);
        let two = one.skip(1);
        assert(one[0] == mark && two[0] == '}');
        assert(two.skip(1) =~= after);
        let rest = replaced(after, pattern, with);
        if one.len() >= 3 {
            assert(one.take(3)[0] == mark);
        }
        if two.len() >= 3 {
            assert(two.take(3)[0] == '}');
        }
        assert(replaced(two, pattern, with) =~= seq!['}'] + rest) by {
            if two.len() < 3 {
                assert(after.len() < 3);
                assert(two =~= seq!['}'] + after);
            }
        }
        assert(replaced(one, pattern, with) =~= seq![mark, '}'] + rest) by {
            if one.len() < 3 {
                assert(after.len() < 3);
                assert(one =~= seq![mark, '}'] + after);
            }
        }
        assert(replaced(text, pattern, with) =~= before + middle + rest);
    } else {
        let rest = before.skip(1);
        assert(text[0] == before[0]);
        assert(text.skip(1) =~= rest + middle + after);
        assert(plain(rest)) by {
            assert forall|i: int| 0 <= i < rest.len() implies #[trigger] rest[i] != '{' by {
                assert(rest[i] == before[i + 1]);
            }
        }
        lemma_skipped_over(rest, mark, after, other, with);
        assert(seq![text[0]] + (rest + middle + replaced(after, pattern, with)) =~= before + middle
            + replaced(after, pattern, with));
    }
}

} // verus!
