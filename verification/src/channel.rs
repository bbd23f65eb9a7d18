//! Typed data channels over sparse grids.

use crate::sparse_grid::SparseGrid;
use vstd::prelude::*;

verus! {

/// A single-precision number, kept as its IEEE 754 bit pattern. All bits clear is positive zero.
#[derive(Clone, Copy, Debug, PartialEq, Eq, Hash, Structural)]
pub struct Scalar(pub u32);

impl Default for Scalar {
    fn default() -> (r: Self)
        ensures
            r == Scalar(0),
    {
        Scalar(0)
    }
}

/// Quantized scalar density, from 0 to 65535.
#[derive(Clone, Copy, Debug, PartialEq, Eq, Hash, Structural)]
pub struct Density(pub u16);

impl Default for Density {
    fn default() -> (r: Self)
        ensures
            r == Density(0),
    {
        Density(0)
    }
}

/// Per-voxel cell flags: a bit field of the `CELL_` constants.
#[derive(Clone, Copy, Debug, PartialEq, Eq, Hash, Structural)]
pub struct CellFlags(pub u16);

impl Default for CellFlags {
    fn default() -> (r: Self)
        ensures
            r == CellFlags(0),
    {
        CellFlags(0)
    }
}

/// Distance to the coarser side of a resolution border, in 1024ths of a voxel.
#[derive(Clone, Copy, Debug, PartialEq, Eq, Hash, Structural)]
pub struct DistFineCoarse(pub u16);

impl Default for DistFineCoarse {
    fn default() -> (r: Self)
        ensures
            r == DistFineCoarse(0),
    {
        DistFineCoarse(0)
    }
}

/// Scalar pressure.
#[derive(Clone, Copy, Debug, PartialEq, Eq, Hash, Structural)]
pub struct Pressure(pub Scalar);

impl Default for Pressure {
    fn default() -> (r: Self)
        ensures
            r == Pressure(Scalar(0)),
    {
        Pressure(Scalar(0))
    }
}

/// A vector of three numbers.
#[derive(Clone, Copy, Debug, PartialEq, Eq, Hash, Structural)]
pub struct Vec3 {
    pub x: Scalar,
    pub y: Scalar,
    pub z: Scalar,
}

impl Vec3 {
    /// The vector with the given components.
    pub fn new(x: Scalar, y: Scalar, z: Scalar) -> (r: Self)
        ensures
            r.x == x,
            r.y == y,
            r.z == z,
    {
        Vec3 { x, y, z }
    }
}

impl Default for Vec3 {
    fn default() -> (r: Self)
        ensures
            r.x == Scalar(0),
            r.y == Scalar(0),
            r.z == Scalar(0),
    {
        Vec3 { x: Scalar(0), y: Scalar(0), z: Scalar(0) }
    }
}

/// Fluid velocity.
#[derive(Clone, Copy, Debug, PartialEq, Eq, Hash, Structural)]
pub struct Velocity(pub Vec3);

impl Default for Velocity {
    fn default() -> (r: Self)
        ensures
            r.0.x == Scalar(0),
            r.0.y == Scalar(0),
            r.0.z == Scalar(0),
    {
        Velocity(Vec3 { x: Scalar(0), y: Scalar(0), z: Scalar(0) })
    }
}

/// Runtime identifier of a channel.
#[derive(Copy, Clone, Debug, PartialEq, Eq, Hash, Structural)]
pub enum ChannelId {
    Density,
    Velocity,
    Pressure,
    CellFlags,
}

impl ChannelId {
    /// The name of the channel.
    pub fn name(self) -> (r: &'static str)
        ensures
            r@ == (match self {
                ChannelId::Density => "Density"@,
                ChannelId::Velocity => "Velocity"@,
                ChannelId::Pressure => "Pressure"@,
                ChannelId::CellFlags => "CellFlags"@,
            }),
    {
        match self {
            ChannelId::Density => "Density",
            ChannelId::Velocity => "Velocity",
            ChannelId::Pressure => "Pressure",
            ChannelId::CellFlags => "CellFlags",
        }
    }
}

/// Borrowed view of one channel.
pub enum ChannelRef<'a, const BSX: usize, const N: usize> {
    Density(&'a SparseGrid<Density, BSX, N>),
    Velocity(&'a SparseGrid<Velocity, BSX, N>),
    Pressure(&'a SparseGrid<Pressure, BSX, N>),
    CellFlags(&'a SparseGrid<CellFlags, BSX, N>),
}

/// Mutable borrowed view of one channel.
pub enum ChannelRefMut<'a, const BSX: usize, const N: usize> {
    Density(&'a mut SparseGrid<Density, BSX, N>),
    Velocity(&'a mut SparseGrid<Velocity, BSX, N>),
    Pressure(&'a mut SparseGrid<Pressure, BSX, N>),
    CellFlags(&'a mut SparseGrid<CellFlags, BSX, N>),
}

impl<'a, const BSX: usize, const N: usize> ChannelRef<'a, BSX, N> {
    /// The channel that is viewed.
    pub open spec fn spec_id(&self) -> ChannelId {
        match self {
            ChannelRef::Density(_) => ChannelId::Density,
            ChannelRef::Velocity(_) => ChannelId::Velocity,
            ChannelRef::Pressure(_) => ChannelId::Pressure,
            ChannelRef::CellFlags(_) => ChannelId::CellFlags,
        }
    }

    /// The channel that is viewed.
    pub fn id(&self) -> (r: ChannelId)
        ensures
            r == self.spec_id(),
    {
        match self {
            ChannelRef::Density(_) => ChannelId::Density,
            ChannelRef::Velocity(_) => ChannelId::Velocity,
            ChannelRef::Pressure(_) => ChannelId::Pressure,
            ChannelRef::CellFlags(_) => ChannelId::CellFlags,
        }
    }
}

impl<'a, const BSX: usize, const N: usize> ChannelRefMut<'a, BSX, N> {
    /// The channel that is viewed.
    pub fn id(&self) -> (r: ChannelId)
        ensures
            r == (match self {
                ChannelRefMut::Density(_) => ChannelId::Density,
                ChannelRefMut::Velocity(_) => ChannelId::Velocity,
                ChannelRefMut::Pressure(_) => ChannelId::Pressure,
                ChannelRefMut::CellFlags(_) => ChannelId::CellFlags,
            }),
    {
        match self {
            ChannelRefMut::Density(_) => ChannelId::Density,
            ChannelRefMut::Velocity(_) => ChannelId::Velocity,
            ChannelRefMut::Pressure(_) => ChannelId::Pressure,
            ChannelRefMut::CellFlags(_) => ChannelId::CellFlags,
        }
    }
}

/// A typed table of channels. It owns one grid for each channel that is set.
pub struct ChannelTable<const BSX: usize, const N: usize> {
    pub density: Option<SparseGrid<Density, BSX, N>>,
    pub velocity: Option<SparseGrid<Velocity, BSX, N>>,
    pub pressure: Option<SparseGrid<Pressure, BSX, N>>,
    pub cell_flags: Option<SparseGrid<CellFlags, BSX, N>>,
}

impl<const BSX: usize, const N: usize> ChannelTable<BSX, N> {
    /// Channel `id` is set.
    pub open spec fn has(&self, id: ChannelId) -> bool {
        match id {
            ChannelId::Density => self.density is Some,
            ChannelId::Velocity => self.velocity is Some,
            ChannelId::Pressure => self.pressure is Some,
            ChannelId::CellFlags => self.cell_flags is Some,
        }
    }

    /// Channel `id` is the same in both tables.
    pub open spec fn same_channel(&self, other: &Self, id: ChannelId) -> bool {
        match id {
            ChannelId::Density => self.density == other.density,
            ChannelId::Velocity => self.velocity == other.velocity,
            ChannelId::Pressure => self.pressure == other.pressure,
            ChannelId::CellFlags => self.cell_flags == other.cell_flags,
        }
    }

    /// The view of channel `id`, where it is set.
    pub open spec fn spec_get(&self, id: ChannelId) -> Option<ChannelRef<'_, BSX, N>> {
        match id {
            ChannelId::Density => match self.density {
                Some(g) => Some(ChannelRef::Density(&g)),
                None => None,
            },
            ChannelId::Velocity => match self.velocity {
                Some(g) => Some(ChannelRef::Velocity(&g)),
                None => None,
            },
            ChannelId::Pressure => match self.pressure {
                Some(g) => Some(ChannelRef::Pressure(&g)),
                None => None,
            },
            ChannelId::CellFlags => match self.cell_flags {
                Some(g) => Some(ChannelRef::CellFlags(&g)),
                None => None,
            },
        }
    }

    /// The channels that are set, in the order of the table.
    pub open spec fn listed(&self) -> Seq<ChannelId> {
        seq![
            ChannelId::Density,
            ChannelId::Velocity,
            ChannelId::Pressure,
            ChannelId::CellFlags,
        ].filter(|id: ChannelId| self.has(id))
    }

    /// A table with no channel set.
    pub fn new() -> (r: Self)
        ensures
            forall|id: ChannelId| !#[trigger] r.has(id),
    {
        ChannelTable { density: None, velocity: None, pressure: None, cell_flags: None }
    }

    /// The density grid, where it is set.
    pub fn get_density(&self) -> (r: Option<&SparseGrid<Density, BSX, N>>)
        ensures
            r == (match self.density {
                Some(g) => Some(&g),
                None => None,
            }),
    {
        self.density.as_ref()
    }

    /// The velocity grid, where it is set.
    pub fn get_velocity(&self) -> (r: Option<&SparseGrid<Velocity, BSX, N>>)
        ensures
            r == (match self.velocity {
                Some(g) => Some(&g),
                None => None,
            }),
    {
        self.velocity.as_ref()
    }

    /// The pressure grid, where it is set.
    pub fn get_pressure(&self) -> (r: Option<&SparseGrid<Pressure, BSX, N>>)
        ensures
            r == (match self.pressure {
                Some(g) => Some(&g),
                None => None,
            }),
    {
        self.pressure.as_ref()
    }

    /// The cell flag grid, where it is set.
    pub fn get_cell_flags(&self) -> (r: Option<&SparseGrid<CellFlags, BSX, N>>)
        ensures
            r == (match self.cell_flags {
                Some(g) => Some(&g),
                None => None,
            }),
    {
        self.cell_flags.as_ref()
    }

    /// The density grid, to be changed.
    pub fn get_density_mut(&mut self) -> (r: Option<&mut SparseGrid<Density, BSX, N>>)
        ensures
            r is Some == old(self).density is Some,
            r matches Some(g) ==> old(self).density == Some(*g) && final(self).density == Some(
                *final(g),
            ),
            r is None ==> final(self).density is None,
            final(self).velocity == old(self).velocity,
            final(self).pressure == old(self).pressure,
            final(self).cell_flags == old(self).cell_flags,
    {
        self.density.as_mut()
    }

    /// The velocity grid, to be changed.
    pub fn get_velocity_mut(&mut self) -> (r: Option<&mut SparseGrid<Velocity, BSX, N>>)
        ensures
            r is Some == old(self).velocity is Some,
            r matches Some(g) ==> old(self).velocity == Some(*g) && final(self).velocity == Some(
                *final(g),
            ),
            r is None ==> final(self).velocity is None,
            final(self).density == old(self).density,
            final(self).pressure == old(self).pressure,
            final(self).cell_flags == old(self).cell_flags,
    {
        self.velocity.as_mut()
    }

    /// The pressure grid, to be changed.
    pub fn get_pressure_mut(&mut self) -> (r: Option<&mut SparseGrid<Pressure, BSX, N>>)
        ensures
            r is Some == old(self).pressure is Some,
            r matches Some(g) ==> old(self).pressure == Some(*g) && final(self).pressure == Some(
                *final(g),
            ),
            r is None ==> final(self).pressure is None,
            final(self).density == old(self).density,
            final(self).velocity == old(self).velocity,
            final(self).cell_flags == old(self).cell_flags,
    {
        self.pressure.as_mut()
    }

    /// The cell flag grid, to be changed.
    pub fn get_cell_flags_mut(&mut self) -> (r: Option<&mut SparseGrid<CellFlags, BSX, N>>)
        ensures
            r is Some == old(self).cell_flags is Some,
            r matches Some(g) ==> old(self).cell_flags == Some(*g) && final(self).cell_flags
                == Some(*final(g)),
            r is None ==> final(self).cell_flags is None,
            final(self).density == old(self).density,
            final(self).velocity == old(self).velocity,
            final(self).pressure == old(self).pressure,
    {
        self.cell_flags.as_mut()
    }

    /// Sets the density grid.
    pub fn set_density(&mut self, grid: SparseGrid<Density, BSX, N>)
        ensures
            final(self).density == Some(grid),
            forall|id: ChannelId|
                id != ChannelId::Density ==> #[trigger] final(self).same_channel(old(self), id),
    {
        self.density = Some(grid);
    }

    /// Sets the velocity grid.
    pub fn set_velocity(&mut self, grid: SparseGrid<Velocity, BSX, N>)
        ensures
            final(self).velocity == Some(grid),
            forall|id: ChannelId|
                id != ChannelId::Velocity ==> #[trigger] final(self).same_channel(old(self), id),
    {
        self.velocity = Some(grid);
    }

    /// Sets the pressure grid.
    pub fn set_pressure(&mut self, grid: SparseGrid<Pressure, BSX, N>)
        ensures
            final(self).pressure == Some(grid),
            forall|id: ChannelId|
                id != ChannelId::Pressure ==> #[trigger] final(self).same_channel(old(self), id),
    {
        self.pressure = Some(grid);
    }

    /// Sets the cell flag grid.
    pub fn set_cell_flags(&mut self, grid: SparseGrid<CellFlags, BSX, N>)
        ensures
            final(self).cell_flags == Some(grid),
            forall|id: ChannelId|
                id != ChannelId::CellFlags ==> #[trigger] final(self).same_channel(old(self), id),
    {
        self.cell_flags = Some(grid);
    }

    /// The view of channel `id`, where it is set.
    pub fn get(&self, id: ChannelId) -> (r: Option<ChannelRef<'_, BSX, N>>)
        ensures
            r == self.spec_get(id),
    {
        match id {
            ChannelId::Density => match &self.density {
                Some(g) => Some(ChannelRef::Density(g)),
                None => None,
            },
            ChannelId::Velocity => match &self.velocity {
                Some(g) => Some(ChannelRef::Velocity(g)),
                None => None,
            },
            ChannelId::Pressure => match &self.pressure {
                Some(g) => Some(ChannelRef::Pressure(g)),
                None => None,
            },
            ChannelId::CellFlags => match &self.cell_flags {
                Some(g) => Some(ChannelRef::CellFlags(g)),
                None => None,
            },
        }
    }

    /// The view of channel `id`, to be changed, where it is set.
    pub fn get_mut(&mut self, id: ChannelId) -> (r: Option<ChannelRefMut<'_, BSX, N>>)
        ensures
            r is Some == old(self).has(id),
            forall|other: ChannelId|
                other != id ==> #[trigger] final(self).same_channel(old(self), other),
            r is None ==> final(self).same_channel(old(self), id),
            r matches Some(c) ==> (match id {
                ChannelId::Density => c is Density && old(self).density == Some(
                    *(c->Density_0),
                ) && final(self).density == Some(*final(c->Density_0)),
                ChannelId::Velocity => c is Velocity && old(self).velocity == Some(
                    *(c->Velocity_0),
                ) && final(self).velocity == Some(*final(c->Velocity_0)),
                ChannelId::Pressure => c is Pressure && old(self).pressure == Some(
                    *(c->Pressure_0),
                ) && final(self).pressure == Some(*final(c->Pressure_0)),
                ChannelId::CellFlags => c is CellFlags && old(self).cell_flags == Some(
                    *(c->CellFlags_0),
                ) && final(self).cell_flags == Some(*final(c->CellFlags_0)),
            }),
    {
        match id {
            ChannelId::Density => match &mut self.density {
                Some(g) => Some(ChannelRefMut::Density(g)),
                None => None,
            },
            ChannelId::Velocity => match &mut self.velocity {
                Some(g) => Some(ChannelRefMut::Velocity(g)),
                None => None,
            },
            ChannelId::Pressure => match &mut self.pressure {
                Some(g) => Some(ChannelRefMut::Pressure(g)),
                None => None,
            },
            ChannelId::CellFlags => match &mut self.cell_flags {
                Some(g) => Some(ChannelRefMut::CellFlags(g)),
                None => None,
            },
        }
    }

    /// Whether channel `id` is set.
    pub fn contains(&self, id: ChannelId) -> (r: bool)
        ensures
            r == self.has(id),
    {
        match id {
            ChannelId::Density => self.density.is_some(),
            ChannelId::Velocity => self.velocity.is_some(),
            ChannelId::Pressure => self.pressure.is_some(),
            ChannelId::CellFlags => self.cell_flags.is_some(),
        }
    }

    /// How many channels are set.
    pub fn len(&self) -> (r: usize)
        ensures
            r == self.listed().len(),
    {
        let mut n: usize = 0;
        if self.density.is_some() {
            n = n + 1;
        }
        if self.velocity.is_some() {
            n = n + 1;
        }
        if self.pressure.is_some() {
            n = n + 1;
        }
        if self.cell_flags.is_some() {
            n = n + 1;
        }
        proof {
            self.lemma_listed();
        }
        n
    }

    /// Whether no channel is set.
    pub fn is_empty(&self) -> (r: bool)
        ensures
            r == (forall|id: ChannelId| !#[trigger] self.has(id)),
    {
        let r = self.density.is_none() && self.velocity.is_none() && self.pressure.is_none()
            && self.cell_flags.is_none();
        proof {
            if !r {
                assert(self.has(ChannelId::Density) || self.has(ChannelId::Velocity) || self.has(
                    ChannelId::Pressure,
                ) || self.has(ChannelId::CellFlags));
            }
        }
        r
    }

    /// Unsets channel `id`.
    pub fn remove(&mut self, id: ChannelId)
        ensures
            !final(self).has(id),
            forall|other: ChannelId|
                other != id ==> #[trigger] final(self).same_channel(old(self), other),
    {
        match id {
            ChannelId::Density => {
                self.density = None;
            },
            ChannelId::Velocity => {
                self.velocity = None;
            },
            ChannelId::Pressure => {
                self.pressure = None;
            },
            ChannelId::CellFlags => {
                self.cell_flags = None;
            },
        }
    }

    /// Unsets all channels.
    pub fn clear(&mut self)
        ensures
            forall|id: ChannelId| !#[trigger] final(self).has(id),
    {
        self.density = None;
        self.velocity = None;
        self.pressure = None;
        self.cell_flags = None;
    }

    /// The table has no channels exactly if none is set, and never more than there are.
    pub proof fn law_counts_channels(&self)
        ensures
            self.listed().len() == 0 <==> forall|id: ChannelId| !#[trigger] self.has(id),
            self.listed().len() <= 4,
            forall|id: ChannelId| #[trigger] self.has(id) <==> self.listed().contains(id),
    {
        self.lemma_listed();
        let s = self.listed();
        let n1: int = if self.has(ChannelId::Density) { 1 } else { 0 };
        let n2: int = n1 + if self.has(ChannelId::Velocity) { 1int } else { 0 };
        let n3: int = n2 + if self.has(ChannelId::Pressure) { 1int } else { 0 };
        assert forall|id: ChannelId| #[trigger] self.has(id) <==> s.contains(id) by {
            if self.has(id) {
                let k = match id {
                    ChannelId::Density => 0,
                    ChannelId::Velocity => n1,
                    ChannelId::Pressure => n2,
                    ChannelId::CellFlags => n3,
                };
                assert(s[k] == id);
            }
        }
        if s.len() == 0 {
            assert(forall|id: ChannelId| !#[trigger] self.has(id));
        }
        if s.len() > 0 {
            assert(s.contains(s[0]));
            assert(self.has(s[0]));
        }
    }

    proof fn lemma_listed(&self)
        ensures
            self.listed() == (if self.has(ChannelId::Density) {
                seq![ChannelId::Density]
            } else {
                seq![]
            }) + (if self.has(ChannelId::Velocity) {
                seq![ChannelId::Velocity]
            } else {
                seq![]
            }) + (if self.has(ChannelId::Pressure) {
                seq![ChannelId::Pressure]
            } else {
                seq![]
            }) + (if self.has(ChannelId::CellFlags) {
                seq![ChannelId::CellFlags]
            } else {
                seq![]
            }),
    {
        let all = seq![
            ChannelId::Density,
            ChannelId::Velocity,
            ChannelId::Pressure,
            ChannelId::CellFlags,
        ];
        reveal(Seq::filter);
        reveal_with_fuel(Seq::filter, 5);
        assert(all.drop_last() =~= seq![
            ChannelId::Density,
            ChannelId::Velocity,
            ChannelId::Pressure,
        ]);
        assert(all.drop_last().drop_last() =~= seq![ChannelId::Density, ChannelId::Velocity]);
        assert(all.drop_last().drop_last().drop_last() =~= seq![ChannelId::Density]);
        assert(all.drop_last().drop_last().drop_last().drop_last() =~= Seq::<ChannelId>::empty());
    }

    /// The views of all channels that are set, in the order of the table.
    pub fn iter(&self) -> (r: Vec<ChannelRef<'_, BSX, N>>)
        ensures
            r@.len() == self.listed().len(),
            forall|i: int|
                0 <= i < r@.len() ==> self.spec_get(self.listed()[i]) == Some(#[trigger] r@[i]),
    {
        let mut out: Vec<ChannelRef<'_, BSX, N>> = Vec::with_capacity(4);
        proof {
            self.lemma_listed();
        }
        if let Some(g) = &self.density {
            out.push(ChannelRef::Density(g));
        }
        if let Some(g) = &self.velocity {
            out.push(ChannelRef::Velocity(g));
        }
        if let Some(g) = &self.pressure {
            out.push(ChannelRef::Pressure(g));
        }
        if let Some(g) = &self.cell_flags {
            out.push(ChannelRef::CellFlags(g));
        }
        out
    }

    /// The views of all channels that are set, to be changed, in the order of the table.
    pub fn iter_mut(&mut self) -> (r: Vec<ChannelRefMut<'_, BSX, N>>)
        ensures
            r@.len() == old(self).listed().len(),
            forall|id: ChannelId|
                !old(self).has(id) ==> #[trigger] final(self).same_channel(old(self), id),
            forall|i: int|
                0 <= i < r@.len() ==> (match #[trigger] r@[i] {
                    ChannelRefMut::Density(g) => old(self).listed()[i] == ChannelId::Density && old(
                        self,
                    ).density == Some(*g) && final(self).density == Some(*final(g)),
                    ChannelRefMut::Velocity(g) => old(self).listed()[i] == ChannelId::Velocity
                        && old(self).velocity == Some(*g) && final(self).velocity == Some(
                        *final(g),
                    ),
                    ChannelRefMut::Pressure(g) => old(self).listed()[i] == ChannelId::Pressure
                        && old(self).pressure == Some(*g) && final(self).pressure == Some(
                        *final(g),
                    ),
                    ChannelRefMut::CellFlags(g) => old(self).listed()[i] == ChannelId::CellFlags
                        && old(self).cell_flags == Some(*g) && final(self).cell_flags == Some(
                        *final(g),
                    ),
                }),
    {
        let mut out: Vec<ChannelRefMut<'_, BSX, N>> = Vec::with_capacity(4);
        proof {
            self.lemma_listed();
        }
        if let Some(g) = &mut self.density {
            out.push(ChannelRefMut::Density(g));
        }
        if let Some(g) = &mut self.velocity {
            out.push(ChannelRefMut::Velocity(g));
        }
        if let Some(g) = &mut self.pressure {
            out.push(ChannelRefMut::Pressure(g));
        }
        if let Some(g) = &mut self.cell_flags {
            out.push(ChannelRefMut::CellFlags(g));
        }
        out
    }

    /// Calls `f` with the view of each channel that is set, in the order of the table.
    pub fn for_each<'a, F: FnMut(ChannelRef<'a, BSX, N>)>(&'a self, mut f: F)
        requires
            forall|g: F, c: ChannelRef<'a, BSX, N>| #[trigger] call_requires(g, (c,)),
        ensures
            forall|id: ChannelId|
                self.has(id) ==> call_ensures(f, ((#[trigger] self.spec_get(id)).unwrap(),), ()),
    {
        if let Some(g) = &self.density {
            f(ChannelRef::Density(g));
        }
        if let Some(g) = &self.velocity {
            f(ChannelRef::Velocity(g));
        }
        if let Some(g) = &self.pressure {
            f(ChannelRef::Pressure(g));
        }
        if let Some(g) = &self.cell_flags {
            f(ChannelRef::CellFlags(g));
        }
    }
}

impl<const BSX: usize, const N: usize> ChannelTable<BSX, N> {
    /// Calls `f` with the view of each channel that is set, to be changed, in the order of the table.
    pub fn for_each_mut<'a, F: FnMut(ChannelRefMut<'a, BSX, N>)>(&'a mut self, mut f: F)
        requires
            forall|g: F, c: ChannelRefMut<'a, BSX, N>| #[trigger] call_requires(g, (c,)),
        ensures
            forall|id: ChannelId|
                !old(self).has(id) ==> #[trigger] final(self).same_channel(old(self), id),
            forall|id: ChannelId| #[trigger] final(self).has(id) == old(self).has(id),
            old(self).density matches Some(d) ==> exists|g: &'a mut SparseGrid<Density, BSX, N>|
                *g == d && final(self).density == Some(*final(g)) && #[trigger] call_ensures(
                    f,
                    (ChannelRefMut::Density(g),),
                    (),
                ),
            old(self).velocity matches Some(d) ==> exists|g: &'a mut SparseGrid<Velocity, BSX, N>|
                *g == d && final(self).velocity == Some(*final(g)) && #[trigger] call_ensures(
                    f,
                    (ChannelRefMut::Velocity(g),),
                    (),
                ),
            old(self).pressure matches Some(d) ==> exists|g: &'a mut SparseGrid<Pressure, BSX, N>|
                *g == d && final(self).pressure == Some(*final(g)) && #[trigger] call_ensures(
                    f,
                    (ChannelRefMut::Pressure(g),),
                    (),
                ),
            old(self).cell_flags matches Some(d) ==> exists|g: &'a mut SparseGrid<CellFlags, BSX, N>|
                *g == d && final(self).cell_flags == Some(*final(g)) && #[trigger] call_ensures(
                    f,
                    (ChannelRefMut::CellFlags(g),),
                    (),
                ),
    {
        if let Some(g) = &mut self.density {
            f(ChannelRefMut::Density(g));
        }
        if let Some(g) = &mut self.velocity {
            f(ChannelRefMut::Velocity(g));
        }
        if let Some(g) = &mut self.pressure {
            f(ChannelRefMut::Pressure(g));
        }
        if let Some(g) = &mut self.cell_flags {
            f(ChannelRefMut::CellFlags(g));
        }
    }
}

impl<const BSX: usize, const N: usize> Default for ChannelTable<BSX, N> {
    fn default() -> (r: Self)
        ensures
            forall|id: ChannelId| !#[trigger] r.has(id),
    {
        Self::new()
    }
}

/// A channel is found under its id exactly if the table has it, and what is found is of that id.
pub proof fn law_found_by_id<const BSX: usize, const N: usize>(t: &ChannelTable<BSX, N>, id: ChannelId)
    ensures
        t.spec_get(id) is Some <==> t.has(id),
        t.spec_get(id) matches Some(c) ==> c.spec_id() == id,
        t.spec_get(ChannelId::Density) matches Some(ChannelRef::Density(g)) ==> t.density == Some(*g),
        t.spec_get(ChannelId::Velocity) matches Some(ChannelRef::Velocity(g)) ==> t.velocity == Some(
            *g,
        ),
        t.spec_get(ChannelId::Pressure) matches Some(ChannelRef::Pressure(g)) ==> t.pressure == Some(
            *g,
        ),
        t.spec_get(ChannelId::CellFlags) matches Some(ChannelRef::CellFlags(g)) ==> t.cell_flags
            == Some(*g),
        t.spec_get(ChannelId::Density) is Some <==> t.density is Some,
        t.spec_get(ChannelId::Velocity) is Some <==> t.velocity is Some,
        t.spec_get(ChannelId::Pressure) is Some <==> t.pressure is Some,
        t.spec_get(ChannelId::CellFlags) is Some <==> t.cell_flags is Some,
{
}

/// Tables that have the same channel under every id are the same, and one that differs in a channel
/// does not have the same under its id.
pub proof fn law_same_channels<const BSX: usize, const N: usize>(
    a: &ChannelTable<BSX, N>,
    b: &ChannelTable<BSX, N>,
)
    ensures
        (forall|id: ChannelId| #[trigger] a.same_channel(b, id)) <==> *a == *b,
        a.same_channel(b, ChannelId::Density) <==> a.density == b.density,
        a.same_channel(b, ChannelId::Velocity) <==> a.velocity == b.velocity,
        a.same_channel(b, ChannelId::Pressure) <==> a.pressure == b.pressure,
        a.same_channel(b, ChannelId::CellFlags) <==> a.cell_flags == b.cell_flags,
{
    if forall|id: ChannelId| #[trigger] a.same_channel(b, id) {
        assert(a.same_channel(b, ChannelId::Density) && a.same_channel(b, ChannelId::Velocity)
            && a.same_channel(b, ChannelId::Pressure) && a.same_channel(b, ChannelId::CellFlags));
    }
}

/// The place of a channel in the order of the list.
pub open spec fn rank(id: ChannelId) -> int {
    match id {
        ChannelId::Density => 0,
        ChannelId::Velocity => 1,
        ChannelId::Pressure => 2,
        ChannelId::CellFlags => 3,
    }
}

/// The channels are listed once each: density, velocity, pressure, flags, as far as they are set.
pub proof fn law_listed_in_order<const BSX: usize, const N: usize>(t: &ChannelTable<BSX, N>)
    ensures
        forall|i: int, j: int|
            0 <= i < j < t.listed().len() ==> rank(#[trigger] t.listed()[i]) < rank(
                #[trigger] t.listed()[j],
            ),
        t.listed().contains(ChannelId::Density) <==> t.density is Some,
        t.listed().contains(ChannelId::Velocity) <==> t.velocity is Some,
        t.listed().contains(ChannelId::Pressure) <==> t.pressure is Some,
        t.listed().contains(ChannelId::CellFlags) <==> t.cell_flags is Some,
{
    t.lemma_listed();
    t.law_counts_channels();
    assert(t.has(ChannelId::Density) <==> t.density is Some);
    assert(t.has(ChannelId::Velocity) <==> t.velocity is Some);
    assert(t.has(ChannelId::Pressure) <==> t.pressure is Some);
    assert(t.has(ChannelId::CellFlags) <==> t.cell_flags is Some);
}

} // verus!
