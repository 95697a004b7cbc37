//! The rule catalog: one record per tile identifier, stating which tiles may
//! stand on each side and, optionally, a per-side table of preference weights.
//! The catalog is built once from configuration and never mutated while a
//! grid is being solved.

use vstd::prelude::*;
use crate::color::HexColor;

verus! {

/// The largest number of rules a catalog accepts; keeps every weight sum the
/// solver computes far below the integer limits.
pub const MAX_TILES: usize = 65536;

/// The four orthogonal directions, seen from the cell the solver works on:
/// `Top` names the neighbor at `y - 1`, `Left` the neighbor at `x - 1`.
#[derive(Clone, Copy, Debug, PartialEq, Eq, Structural)]
pub enum Side {
    Top,
    Right,
    Bottom,
    Left,
}

impl Side {
    /// The side a neighbor in direction `self` shows back to this cell.
    pub open spec fn spec_opposite(self) -> Side {
        match self {
            Side::Top => Side::Bottom,
            Side::Right => Side::Left,
            Side::Bottom => Side::Top,
            Side::Left => Side::Right,
        }
    }

    /// Executable form of [`Self::spec_opposite`].
    pub fn opposite(self) -> (r: Side)
        ensures
            r == self.spec_opposite(),
    {
        match self {
            Side::Top => Side::Bottom,
            Side::Right => Side::Left,
            Side::Bottom => Side::Top,
            Side::Left => Side::Right,
        }
    }
}

/// Errors surfaced while building or querying a catalog.
#[derive(Clone, Copy, Debug, PartialEq, Eq, Structural)]
pub enum SolverError {
    /// A tile identifier, adjacency entry or weight key does not resolve in
    /// the catalog.
    UnknownTileId,
    /// A preference weight in a configuration record is negative.
    InvalidWeight,
}

/// One tile's rules: its identifier, display color, the identifiers allowed
/// on each side, an opaque visual asset reference, and optional per-side
/// weight tables biasing which neighbor is preferred.
#[derive(Debug)]
pub struct TileInfo {
    pub name: String,
    pub color: HexColor,
    pub friends_top: Vec<String>,
    pub friends_right: Vec<String>,
    pub friends_bottom: Vec<String>,
    pub friends_left: Vec<String>,
    pub image: String,
    pub weights_top: Option<Vec<(String, i32)>>,
    pub weights_right: Option<Vec<(String, i32)>>,
    pub weights_bottom: Option<Vec<(String, i32)>>,
    pub weights_left: Option<Vec<(String, i32)>>,
}

/// The external configuration: one record per tile, in input order.
#[derive(Debug)]
pub struct TilesConfig(pub Vec<TileInfo>);

/// The identifiers of a list of strings, as character sequences.
pub open spec fn ids_of(v: Seq<String>) -> Seq<Seq<char>> {
    v.map_values(|s: String| s@)
}

/// The weight a table assigns to `id`: the value of the first entry naming
/// it, or zero when no entry does.
pub open spec fn table_weight(t: Seq<(String, i32)>, id: Seq<char>) -> int
    decreases t.len(),
{
    if t.len() == 0 {
        0
    } else if t[0].0@ == id {
        t[0].1 as int
    } else {
        table_weight(t.drop_first(), id)
    }
}

impl TileInfo {
    /// The identifiers this tile permits on the given side.
    pub open spec fn spec_friends(self, side: Side) -> Seq<Seq<char>> {
        match side {
            Side::Top => ids_of(self.friends_top@),
            Side::Right => ids_of(self.friends_right@),
            Side::Bottom => ids_of(self.friends_bottom@),
            Side::Left => ids_of(self.friends_left@),
        }
    }

    /// True when this tile permits `id` immediately adjacent on `side`.
    pub open spec fn allows(self, side: Side, id: Seq<char>) -> bool {
        self.spec_friends(side).contains(id)
    }

    /// The optional weight table of the given side.
    pub open spec fn spec_weight_table(self, side: Side) -> Option<Vec<(String, i32)>> {
        match side {
            Side::Top => self.weights_top,
            Side::Right => self.weights_right,
            Side::Bottom => self.weights_bottom,
            Side::Left => self.weights_left,
        }
    }

    /// The bias this tile gives `id` on `side`: the table entry's value, or
    /// zero when the table or the entry is absent.
    pub open spec fn side_weight(self, side: Side, id: Seq<char>) -> int {
        match self.spec_weight_table(side) {
            None => 0,
            Some(t) => table_weight(t@, id),
        }
    }

    /// The adjacency list of the given side.
    pub fn friends(&self, side: Side) -> (r: &Vec<String>)
        ensures
            ids_of(r@) == self.spec_friends(side),
    {
        match side {
            Side::Top => &self.friends_top,
            Side::Right => &self.friends_right,
            Side::Bottom => &self.friends_bottom,
            Side::Left => &self.friends_left,
        }
    }

    /// The weight table of the given side.
    pub fn weight_table(&self, side: Side) -> (r: &Option<Vec<(String, i32)>>)
        ensures
            *r == self.spec_weight_table(side),
    {
        match side {
            Side::Top => &self.weights_top,
            Side::Right => &self.weights_right,
            Side::Bottom => &self.weights_bottom,
            Side::Left => &self.weights_left,
        }
    }
}

/// True when some rule in `tiles` carries the identifier `id`.
pub open spec fn seq_has_id(tiles: Seq<TileInfo>, id: Seq<char>) -> bool {
    exists|i: int| 0 <= i < tiles.len() && tiles[i].name@ == id
}

/// The position of the first rule carrying `id` (meaningful only when one
/// does).
pub open spec fn first_idx(tiles: Seq<TileInfo>, id: Seq<char>) -> int
    decreases tiles.len(),
{
    if tiles.len() == 0 {
        0
    } else if tiles[0].name@ == id {
        0
    } else {
        1 + first_idx(tiles.drop_first(), id)
    }
}

pub proof fn lemma_first_idx(tiles: Seq<TileInfo>, id: Seq<char>)
    requires
        seq_has_id(tiles, id),
    ensures
        0 <= first_idx(tiles, id) < tiles.len(),
        tiles[first_idx(tiles, id)].name@ == id,
        forall|j: int| 0 <= j < first_idx(tiles, id) ==> tiles[j].name@ != id,
    decreases tiles.len(),
{
    if tiles[0].name@ == id {
    } else {
        let rest = tiles.drop_first();
        assert(seq_has_id(rest, id)) by {
            let w = choose|i: int| 0 <= i < tiles.len() && tiles[i].name@ == id;
            assert(rest[w - 1] == tiles[w]);
        }
        lemma_first_idx(rest, id);
        assert forall|j: int| 0 <= j < first_idx(tiles, id) implies tiles[j].name@ != id by {
            if j > 0 {
                assert(tiles[j] == rest[j - 1]);
            }
        }
    }
}

/// `tiles` after adding rule `t`: a rule already carrying the same
/// identifier is overwritten in place, otherwise `t` is appended.
pub open spec fn spec_insert(tiles: Seq<TileInfo>, t: TileInfo) -> Seq<TileInfo> {
    if seq_has_id(tiles, t.name@) {
        tiles.update(first_idx(tiles, t.name@), t)
    } else {
        tiles.push(t)
    }
}

/// True when every identifier in `l` carries a rule in `tiles`.
pub open spec fn list_resolved_in(tiles: Seq<TileInfo>, l: Seq<String>) -> bool {
    forall|j: int| 0 <= j < l.len() ==> seq_has_id(tiles, #[trigger] l[j]@)
}

/// True when every key among the weight entries carries a rule.
pub open spec fn entries_resolved_in(tiles: Seq<TileInfo>, tb: Seq<(String, i32)>) -> bool {
    forall|j: int| 0 <= j < tb.len() ==> seq_has_id(tiles, #[trigger] tb[j].0@)
}

/// True when every key of the optional weight table carries a rule.
pub open spec fn table_resolved_in(tiles: Seq<TileInfo>, t: Option<Vec<(String, i32)>>) -> bool {
    match t {
        None => true,
        Some(tb) => entries_resolved_in(tiles, tb@),
    }
}

/// True when every adjacency entry and weight key of `t` resolves.
pub open spec fn tile_resolved_in(tiles: Seq<TileInfo>, t: TileInfo) -> bool {
    &&& list_resolved_in(tiles, t.friends_top@)
    &&& list_resolved_in(tiles, t.friends_right@)
    &&& list_resolved_in(tiles, t.friends_bottom@)
    &&& list_resolved_in(tiles, t.friends_left@)
    &&& table_resolved_in(tiles, t.weights_top)
    &&& table_resolved_in(tiles, t.weights_right)
    &&& table_resolved_in(tiles, t.weights_bottom)
    &&& table_resolved_in(tiles, t.weights_left)
}

/// True when every reference anywhere in `tiles` resolves in `tiles`.
pub open spec fn refs_resolved_seq(tiles: Seq<TileInfo>) -> bool {
    forall|i: int| 0 <= i < tiles.len() ==> tile_resolved_in(tiles, #[trigger] tiles[i])
}

/// True when every value among the weight entries is non-negative.
pub open spec fn entries_nonneg(tb: Seq<(String, i32)>) -> bool {
    forall|j: int| 0 <= j < tb.len() ==> (#[trigger] tb[j].1) >= 0
}

/// True when every value of the optional weight table is non-negative.
pub open spec fn table_nonneg(t: Option<Vec<(String, i32)>>) -> bool {
    match t {
        None => true,
        Some(tb) => entries_nonneg(tb@),
    }
}

/// True when every weight of `t` is non-negative.
pub open spec fn tile_weights_valid(t: TileInfo) -> bool {
    &&& table_nonneg(t.weights_top)
    &&& table_nonneg(t.weights_right)
    &&& table_nonneg(t.weights_bottom)
    &&& table_nonneg(t.weights_left)
}

/// True when every weight anywhere in `tiles` is non-negative.
pub open spec fn weights_valid_seq(tiles: Seq<TileInfo>) -> bool {
    forall|i: int| 0 <= i < tiles.len() ==> tile_weights_valid(#[trigger] tiles[i])
}

/// The rules a whole configuration builds, record by record, later records
/// with an already-seen identifier overwriting the earlier rule.
pub open spec fn spec_catalog_rules(cfg: Seq<TileInfo>) -> Seq<TileInfo>
    decreases cfg.len(),
{
    if cfg.len() == 0 {
        Seq::empty()
    } else {
        spec_insert(spec_catalog_rules(cfg.drop_last()), cfg.last())
    }
}

/// An immutable collection of tile rules, keyed by identifier.  Build it
/// through [`Catalog::new`] and [`Catalog::insert`], which keep it
/// well-formed; the solver's contracts all assume [`Catalog::wf`].
#[derive(Debug)]
pub struct Catalog {
    pub tiles: Vec<TileInfo>,
}

impl Catalog {
    /// The rules, in catalog order.
    pub open spec fn rules(self) -> Seq<TileInfo> {
        self.tiles@
    }

    /// How many rules the catalog holds.
    pub open spec fn size(self) -> nat {
        self.tiles@.len()
    }

    /// Every known identifier, in catalog order.
    pub open spec fn ids(self) -> Seq<Seq<char>> {
        self.tiles@.map_values(|t: TileInfo| t.name@)
    }

    /// True when some rule carries the identifier `id`.
    pub open spec fn contains_id(self, id: Seq<char>) -> bool {
        seq_has_id(self.tiles@, id)
    }

    /// The rule carrying `id` (meaningful only when one does).
    pub open spec fn spec_rule(self, id: Seq<char>) -> TileInfo {
        self.tiles@[first_idx(self.tiles@, id)]
    }

    /// Well-formed: identifiers are pairwise distinct and the catalog is not
    /// over its capacity.  Every constructor maintains this.
    pub open spec fn wf(self) -> bool {
        &&& self.ids().no_duplicates()
        &&& self.tiles@.len() <= MAX_TILES
    }

    /// An empty catalog.
    pub fn new() -> (c: Catalog)
        ensures
            c.rules() =~= Seq::<TileInfo>::empty(),
            c.wf(),
    {
        Catalog { tiles: Vec::new() }
    }

    /// How many rules the catalog holds.
    pub fn len(&self) -> (n: usize)
        ensures
            n == self.size(),
    {
        self.tiles.len()
    }

    /// The position of the rule carrying `id`, when one does.
    fn find_idx(&self, id: &String) -> (r: Option<usize>)
        ensures
            match r {
                Some(i) => self.contains_id(id@) && i == first_idx(self.tiles@, id@),
                None => !self.contains_id(id@),
            },
    {
        let n = self.tiles.len();
        for i in 0..n
            invariant
                n == self.tiles@.len(),
                forall|j: int| 0 <= j < i ==> self.tiles@[j].name@ != id@,
        {
            if self.tiles[i].name == *id {
                proof {
                    lemma_first_idx(self.tiles@, id@);
                    let f = first_idx(self.tiles@, id@);
                    assert(f <= i) by {
                        if f > i {
                            assert(self.tiles@[i as int].name@ != id@);
                        }
                    }
                    assert(f >= i) by {
                        if f < i {
                            assert(self.tiles@[f].name@ != id@);
                        }
                    }
                }
                return Some(i);
            }
        }
        return None;
    }

    /// Adds a rule.  A rule with the same identifier is overwritten in
    /// place; a new identifier is appended.
    pub fn insert(&mut self, t: TileInfo)
        requires
            old(self).wf(),
            old(self).size() < MAX_TILES,
        ensures
            final(self).rules() == spec_insert(old(self).rules(), t),
            final(self).wf(),
    {
        let found = self.find_idx(&t.name);
        match found {
            Some(i) => {
                proof {
                    lemma_first_idx(self.tiles@, t.name@);
                }
                self.tiles[i] = t;
                proof {
                    assert(final(self).ids() =~= old(self).ids());
                }
            },
            None => {
                proof {
                    let olds = self.ids();
                    assert forall|k: int| 0 <= k < olds.len() implies olds[k] != t.name@ by {
                        assert(olds[k] == self.tiles@[k].name@);
                    }
                }
                self.tiles.push(t);
                proof {
                    assert(final(self).ids() =~= old(self).ids().push(t.name@));
                }
            },
        }
    }

    /// Resolves an identifier to its rule; `UnknownTileId` when absent.
    pub fn lookup(&self, id: &String) -> (r: Result<&TileInfo, SolverError>)
        ensures
            match r {
                Ok(t) => self.contains_id(id@) && *t == self.spec_rule(id@),
                Err(e) => !self.contains_id(id@) && e == SolverError::UnknownTileId,
            },
    {
        match self.find_idx(id) {
            Some(i) => {
                proof {
                    lemma_first_idx(self.tiles@, id@);
                }
                Ok(&self.tiles[i])
            },
            None => Err(SolverError::UnknownTileId),
        }
    }

    /// The rule of an identifier known to resolve.
    pub fn rule(&self, id: &String) -> (t: &TileInfo)
        requires
            self.contains_id(id@),
        ensures
            *t == self.spec_rule(id@),
    {
        proof {
            lemma_first_idx(self.tiles@, id@);
        }
        let i = match self.find_idx(id) {
            Some(i) => i,
            None => 0,
        };
        &self.tiles[i]
    }

    /// Every known identifier, in catalog order; the full identifier set a
    /// fresh or reset grid starts from.
    pub fn all_ids(&self) -> (r: Vec<String>)
        ensures
            ids_of(r@) == self.ids(),
    {
        let mut out: Vec<String> = Vec::new();
        let n = self.tiles.len();
        for i in 0..n
            invariant
                n == self.tiles@.len(),
                out@.len() == i,
                ids_of(out@) =~= self.ids().take(i as int),
        {
            let ghost out0 = out@;
            out.push(self.tiles[i].name.clone());
            proof {
                assert(out@.len() == i + 1);
                assert forall|j: int| 0 <= j < i + 1 implies ids_of(out@)[j] == self.ids().take(
                    i + 1,
                )[j] by {
                    assert(ids_of(out@)[j] == out@[j]@);
                    if j < i {
                        assert(out@[j] == out0[j]);
                        assert(ids_of(out0)[j] == out0[j]@);
                    }
                }
                assert(ids_of(out@) =~= self.ids().take(i + 1));
            }
        }
        proof {
            assert(self.ids().take(n as int) =~= self.ids());
        }
        out
    }

    /// True when every identifier in `l` resolves.
    fn check_list(&self, l: &Vec<String>) -> (b: bool)
        ensures
            b == list_resolved_in(self.tiles@, l@),
    {
        let n = l.len();
        for j in 0..n
            invariant
                n == l@.len(),
                forall|i: int| 0 <= i < j ==> seq_has_id(self.tiles@, #[trigger] l@[i]@),
        {
            if self.find_idx(&l[j]).is_none() {
                return false;
            }
        }
        true
    }

    /// True when every key among the weight entries resolves.
    fn check_entries(&self, tb: &Vec<(String, i32)>) -> (b: bool)
        ensures
            b == entries_resolved_in(self.tiles@, tb@),
    {
        let n = tb.len();
        for j in 0..n
            invariant
                n == tb@.len(),
                forall|i: int| 0 <= i < j ==> seq_has_id(self.tiles@, #[trigger] tb@[i].0@),
        {
            if self.find_idx(&tb[j].0).is_none() {
                return false;
            }
        }
        true
    }

    /// True when every key of the optional weight table resolves.
    fn check_table_refs(&self, t: &Option<Vec<(String, i32)>>) -> (b: bool)
        ensures
            b == table_resolved_in(self.tiles@, *t),
    {
        match t {
            None => true,
            Some(tb) => self.check_entries(tb),
        }
    }

    /// True when every reference of `t` resolves.
    fn check_tile_refs(&self, t: &TileInfo) -> (b: bool)
        ensures
            b == tile_resolved_in(self.tiles@, *t),
    {
        self.check_list(&t.friends_top) && self.check_list(&t.friends_right) && self.check_list(
            &t.friends_bottom,
        ) && self.check_list(&t.friends_left) && self.check_table_refs(&t.weights_top)
            && self.check_table_refs(&t.weights_right) && self.check_table_refs(&t.weights_bottom)
            && self.check_table_refs(&t.weights_left)
    }

    /// Checks the whole catalog for malformed records: an adjacency entry
    /// or weight key that does not resolve is `UnknownTileId`; otherwise a
    /// negative weight is `InvalidWeight`.
    pub fn validate(&self) -> (r: Result<(), SolverError>)
        ensures
            r is Ok <==> refs_resolved_seq(self.tiles@) && weights_valid_seq(self.tiles@),
            r == Err::<(), SolverError>(SolverError::UnknownTileId) <==> !refs_resolved_seq(
                self.tiles@,
            ),
            r == Err::<(), SolverError>(SolverError::InvalidWeight) <==> refs_resolved_seq(
                self.tiles@,
            ) && !weights_valid_seq(self.tiles@),
    {
        let n = self.tiles.len();
        for i in 0..n
            invariant
                n == self.tiles@.len(),
                forall|t: int| 0 <= t < i ==> tile_resolved_in(self.tiles@, #[trigger] self.tiles@[t]),
        {
            if !self.check_tile_refs(&self.tiles[i]) {
                return Err(SolverError::UnknownTileId);
            }
        }
        for i in 0..n
            invariant
                n == self.tiles@.len(),
                refs_resolved_seq(self.tiles@),
                forall|t: int| 0 <= t < i ==> tile_weights_valid(#[trigger] self.tiles@[t]),
        {
            if !check_tile_nonneg(&self.tiles[i]) {
                return Err(SolverError::InvalidWeight);
            }
        }
        Ok(())
    }

    /// Builds and checks a catalog from external configuration: records are
    /// inserted in input order (a repeated identifier overwrites), then the
    /// result is validated; a malformed record is a construction-time
    /// error, exactly as [`Catalog::validate`] classifies it.
    pub fn from_config(cfg: TilesConfig) -> (r: Result<Catalog, SolverError>)
        requires
            cfg.0@.len() <= MAX_TILES,
        ensures
            match r {
                Ok(c) => {
                    &&& c.rules() == spec_catalog_rules(cfg.0@)
                    &&& c.wf()
                    &&& refs_resolved_seq(spec_catalog_rules(cfg.0@))
                    &&& weights_valid_seq(spec_catalog_rules(cfg.0@))
                },
                Err(e) => {
                    &&& !(refs_resolved_seq(spec_catalog_rules(cfg.0@)) && weights_valid_seq(
                        spec_catalog_rules(cfg.0@),
                    ))
                    &&& (e == SolverError::UnknownTileId <==> !refs_resolved_seq(
                        spec_catalog_rules(cfg.0@),
                    ))
                },
            },
    {
        let mut items = cfg.0;
        let ghost orig = items@;
        let mut cat = Catalog::new();
        let ghost total = orig.len();
        let mut i: usize = 0;
        while items.len() > 0
            invariant
                orig.len() <= MAX_TILES,
                i + items@.len() == orig.len(),
                items@ == orig.skip(i as int),
                cat.wf(),
                cat.rules() == spec_catalog_rules(orig.take(i as int)),
                cat.rules().len() <= i,
            decreases items@.len(),
        {
            let t = items.remove(0);
            proof {
                assert(t == orig[i as int]);
                assert(items@ =~= orig.skip(i + 1));
                assert(orig.take(i + 1).drop_last() =~= orig.take(i as int));
                assert(orig.take(i + 1).last() == orig[i as int]);
            }
            let ghost old_rules = cat.rules();
            cat.insert(t);
            proof {
                if seq_has_id(old_rules, t.name@) {
                    lemma_first_idx(old_rules, t.name@);
                }
                assert(cat.rules().len() <= old_rules.len() + 1);
            }
            i = i + 1;
        }
        proof {
            assert(orig.take(i as int) =~= orig);
        }
        match cat.validate() {
            Ok(_) => Ok(cat),
            Err(e) => Err(e),
        }
    }
}

/// True when every value among the weight entries is non-negative.
fn check_entries_nonneg(tb: &Vec<(String, i32)>) -> (b: bool)
    ensures
        b == entries_nonneg(tb@),
{
    let n = tb.len();
    for j in 0..n
        invariant
            n == tb@.len(),
            forall|i: int| 0 <= i < j ==> (#[trigger] tb@[i].1) >= 0,
    {
        if tb[j].1 < 0 {
            return false;
        }
    }
    true
}

/// True when every weight of `t` is non-negative.
fn check_table_nonneg(t: &Option<Vec<(String, i32)>>) -> (b: bool)
    ensures
        b == table_nonneg(*t),
{
    match t {
        None => true,
        Some(tb) => check_entries_nonneg(tb),
    }
}

/// True when every weight table of `t` is non-negative throughout.
fn check_tile_nonneg(t: &TileInfo) -> (b: bool)
    ensures
        b == tile_weights_valid(*t),
{
    check_table_nonneg(&t.weights_top) && check_table_nonneg(&t.weights_right)
        && check_table_nonneg(&t.weights_bottom) && check_table_nonneg(&t.weights_left)
}

} // verus!
