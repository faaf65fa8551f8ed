use vstd::prelude::*;

verus! {

/// The classification of a hex tile.
#[derive(Clone, Copy, Debug, PartialEq, Eq, Hash, Structural)]
pub enum TileType {
    Grass,
    Building,
    Road,
    Forest,
    Water,
}

impl TileType {
    /// The wire code: 0 Grass, 1 Building, 2 Road, 3 Forest, 4 Water.
    pub open spec fn code_spec(self) -> int {
        match self {
            TileType::Grass => 0,
            TileType::Building => 1,
            TileType::Road => 2,
            TileType::Forest => 3,
            TileType::Water => 4,
        }
    }

    pub fn code(self) -> (c: i32)
        ensures
            c == self.code_spec(),
    {
        match self {
            TileType::Grass => 0,
            TileType::Building => 1,
            TileType::Road => 2,
            TileType::Forest => 3,
            TileType::Water => 4,
        }
    }

    /// The tile with the given wire code; `None` for a code outside `0..=4`.
    pub fn from_code(code: i32) -> (t: Option<TileType>)
        ensures
            match t {
                Some(t) => t.code_spec() == code,
                None => !(0 <= code <= 4),
            },
    {
        match code {
            0 => Some(TileType::Grass),
            1 => Some(TileType::Building),
            2 => Some(TileType::Road),
            3 => Some(TileType::Forest),
            4 => Some(TileType::Water),
            _ => None,
        }
    }
}

/// Each code in `0..=4` names exactly one tile, and each tile's code lies there.
pub proof fn lemma_code_round_trip(t: TileType, u: TileType)
    ensures
        0 <= t.code_spec() <= 4,
        t.code_spec() == u.code_spec() ==> t == u,
{
}

} // verus!
