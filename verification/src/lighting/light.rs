//! What a light update is told: which columns and sections to compute again, how the
//! passes start, and what they report.
use std::collections::BTreeSet;

use vstd::prelude::*;

use crate::lighting::gpu_types::LightParams;
use crate::lighting::light_cpu::{column, is_sky_floor, sky_floor};
use crate::lighting::light_model::standard_opacities;
use crate::lighting::relight::{affected_sections, within_reach};
use crate::lighting::world::{numbers_below, World};
use crate::voxel::shape::{Pos, Shape};
use crate::voxel::sorted::{ascending_below, ascends, in_order};

verus! {

broadcast use {vstd::std_specs::btree::group_btree_axioms, vstd::laws_cmp::group_laws_cmp};

/// Relax passes in one update. A pass with nothing to do dispatches nothing.
pub const MAX_PASSES: usize = 12;

/// What an update reports.
#[derive(Clone, Copy, Debug, PartialEq, Eq)]
pub struct RelaxStats {
    /// Section relaxations across all passes.
    pub relaxations: u32,
    /// Local iterations summed over those relaxations.
    pub iterations: u32,
    /// Passes that had work.
    pub passes: u32,
    /// Sections still listed after the last pass: 0 when it converged.
    pub unfinished: u32,
}

/// An edited position, and the open floor of its column before the edit.
pub type Edit = ([usize; 3], u32);

/// The position of an edit.
pub open spec fn edit_pos(e: Edit) -> Pos {
    Pos { x: e.0[0] as int, y: e.0[1] as int, z: e.0[2] as int }
}

/// The number of the section column that a position is in.
pub open spec fn section_column(sh: Shape, p: Pos) -> int {
    p.x / 16 + sh.nx * (p.z / 16)
}

/// The light of a world as its passes see it: the size of the world, and the number of
/// the update.
pub struct Lighting {
    pub section_count: usize,
    pub world: [i32; 4],
    pub epoch: u32,
}

impl Lighting {
    /// The light of `world`, before any update.
    pub fn new(world: &World) -> (lighting: Lighting)
        requires
            world.wf(),
        ensures
            lighting.section_count == world.shape().sections(),
            lighting.world@ == seq![(world.nx * 16) as i32, (world.ny * 16) as i32, (world.nz * 16) as i32, 0i32],
            lighting.epoch == 0,
    {
        let size = world.size_blocks();
        Lighting {
            section_count: world.section_count(),
            world: [size[0] as i32, size[1] as i32, size[2] as i32, 0],
            epoch: 0,
        }
    }

    /// The bytes of the light volume: one for each cell.
    pub fn light_bytes(&self) -> (n: usize)
        requires
            self.section_count * 4096 <= usize::MAX,
        ensures
            n == self.section_count * 4096,
    {
        self.section_count * 4096
    }

    /// What a dispatch of `job_count` jobs in pass `pass` is told.
    pub fn params(&self, job_count: usize, pass: usize) -> (params: LightParams)
        requires
            job_count <= u32::MAX,
            pass <= u32::MAX,
            self.section_count <= u32::MAX,
        ensures
            params.job_count == job_count,
            params.pass == pass,
            params.epoch == self.epoch,
            params.list_cap == self.section_count,
            params.world == self.world,
    {
        LightParams {
            job_count: job_count as u32,
            pass: pass as u32,
            epoch: self.epoch,
            list_cap: self.section_count as u32,
            world: self.world,
        }
    }

    /// Begins an update of `sections` sections: the indirect arguments of its passes, of
    /// which the first has the sections as its work and the others none yet.
    pub fn prepare(&mut self, sections: usize) -> (args: Vec<u32>)
        requires
            sections <= old(self).section_count,
            old(self).section_count <= u32::MAX,
            old(self).epoch < u32::MAX,
        ensures
            final(self).section_count == old(self).section_count,
            final(self).world == old(self).world,
            final(self).epoch == old(self).epoch + 1,
            args@ == first_args(sections as int),
    {
        let mut args: Vec<u32> = Vec::new();
        let mut pass: usize = 0;
        while pass <= MAX_PASSES
            invariant
                pass <= MAX_PASSES + 1,
                args@.len() == 3 * pass,
                sections <= u32::MAX,
                forall|i: int|
                    0 <= i < args@.len() ==> #[trigger] args@[i] == (if i % 3 != 0 {
                        1
                    } else if i == 0 {
                        sections as u32
                    } else {
                        0
                    }),
            decreases MAX_PASSES + 1 - pass,
        {
            args.push(
                if pass == 0 {
                    sections as u32
                } else {
                    0
                },
            );
            args.push(1);
            args.push(1);
            pass += 1;
        }
        self.epoch = self.epoch + 1;
        args
    }

    /// The columns and sections to compute after `edits`, of a world that has them: the
    /// section column of each edit, and the sections within its reach, each once and in
    /// order.
    pub fn jobs(world: &World, edits: &Vec<Edit>) -> (out: (Vec<u32>, Vec<u32>))
        requires
            world.wf(),
            (world.nx * 16) * (world.nz * 16) <= usize::MAX,
            world.nx * world.nz <= u32::MAX,
            forall|k: int|
                0 <= k < edits@.len() ==> world.shape().has(edit_pos(#[trigger] edits@[k])) && edits@[k].1 <= world.ny * 16,
        ensures
            are_jobs(world, edits@, out.0@, out.1@),
            forall|i: int| 0 <= i < out.0@.len() ==> #[trigger] out.0@[i] < world.nx * world.nz,
            forall|i: int| 0 <= i < out.1@.len() ==> #[trigger] out.1@[i] < world.shape().sections(),
            out.0@.len() <= world.nx * world.nz,
            out.1@.len() <= world.shape().sections(),
    {
        let ghost sh = world.shape();
        let floor = sky_floor(world);
        let sx = world.nx * 16;
        let mut columns: BTreeSet<u32> = BTreeSet::new();
        let mut sections: BTreeSet<u32> = BTreeSet::new();
        let mut k: usize = 0;
        while k < edits.len()
            invariant
                k <= edits@.len(),
                world.wf(),
                sh == world.shape(),
                sx == sh.nx * 16,
                sh.nx * sh.nz <= u32::MAX,
                is_sky_floor(sh, standard_opacities(world), floor@),
                forall|j: int|
                    0 <= j < edits@.len() ==> sh.has(edit_pos(#[trigger] edits@[j])) && edits@[j].1 <= sh.ny * 16,
                forall|c: u32| #[trigger]
                    columns@.contains(c) <==> exists|j: int|
                        0 <= j < k && section_column(sh, edit_pos(#[trigger] edits@[j])) == c,
                forall|s: u32| #[trigger]
                    sections@.contains(s) <==> exists|j: int| 0 <= j < k && reached(sh, floor@, #[trigger] edits@[j], s),
                forall|c: u32| #[trigger] columns@.contains(c) ==> c < sh.nx * sh.nz,
                forall|s: u32| #[trigger] sections@.contains(s) ==> s < sh.sections(),
            decreases edits@.len() - k,
        {
            let (p, old_floor) = edits[k];
            let ghost e = edits@[k as int];
            let ghost q = edit_pos(e);
            let ghost columns0 = columns@;
            let ghost sections0 = sections@;
            proof {
                column_fits(sh, q);
                assert(q.x + sh.nx * 16 * q.z < floor.len());
            }
            let c = ((p[0] / 16) + world.nx * (p[2] / 16)) as u32;
            columns.insert(c);
            let new_floor = floor[p[0] + sx * p[2]];
            assert(new_floor == floor@[column(sh, q.x, q.z)]);
            let near = affected_sections(world, p, old_floor, new_floor);
            let mut m: usize = 0;
            while m < near.len()
                invariant
                    m <= near@.len(),
                    forall|s: u32| #[trigger]
                        sections@.contains(s) <==> sections0.contains(s) || near@.take(m as int).contains(s),
                    forall|s: u32| #[trigger] sections@.contains(s) ==> s < sh.sections(),
                    forall|i: int| 0 <= i < near@.len() ==> #[trigger] near@[i] < sh.sections(),
                decreases near@.len() - m,
            {
                let ghost before = sections@;
                sections.insert(near[m]);
                proof {
                    let t = near@.take(m as int);
                    let t2 = near@.take(m + 1);
                    assert(t2 =~= t.push(near@[m as int]));
                    assert forall|s: u32| #[trigger] sections@.contains(s) <==> sections0.contains(s) || t2.contains(s) by {
                        assert(before.contains(s) <==> sections0.contains(s) || t.contains(s));
                        if t.contains(s) {
                            let i = t.index_of(s);
                            assert(t2[i] == s);
                        }
                        if t2.contains(s) {
                            let i = t2.index_of(s);
                            if i < t.len() {
                                assert(t[i] == s);
                            }
                        }
                        if s == near@[m as int] {
                            assert(t2[t.len() as int] == s);
                        }
                    }
                }
                m += 1;
            }
            proof {
                assert(near@.take(m as int) =~= near@);
                assert(forall|s: u32| near@.contains(s) <==> reached(sh, floor@, e, s));
                assert forall|c2: u32| #[trigger] columns@.contains(c2) <==> exists|j: int|
                    0 <= j < k + 1 && section_column(sh, edit_pos(#[trigger] edits@[j])) == c2 by {
                    assert(columns0.contains(c2) <==> exists|j: int|
                        0 <= j < k && section_column(sh, edit_pos(#[trigger] edits@[j])) == c2);
                    if columns0.contains(c2) {
                        let j = choose|j: int| 0 <= j < k && section_column(sh, edit_pos(#[trigger] edits@[j])) == c2;
                        assert(0 <= j < k + 1 && section_column(sh, edit_pos(edits@[j])) == c2);
                    }
                    if c2 == c {
                        assert(section_column(sh, edit_pos(edits@[k as int])) == c2);
                    }
                }
                assert forall|s: u32| #[trigger] sections@.contains(s) <==> exists|j: int|
                    0 <= j < k + 1 && reached(sh, floor@, #[trigger] edits@[j], s) by {
                    assert(sections0.contains(s) <==> exists|j: int|
                        0 <= j < k && reached(sh, floor@, #[trigger] edits@[j], s));
                    assert(near@.contains(s) <==> reached(sh, floor@, e, s));
                    if sections0.contains(s) {
                        let j = choose|j: int| 0 <= j < k && reached(sh, floor@, #[trigger] edits@[j], s);
                        assert(0 <= j < k + 1 && reached(sh, floor@, edits@[j], s));
                    }
                    if reached(sh, floor@, e, s) {
                        assert(reached(sh, floor@, edits@[k as int], s));
                    }
                }
            }
            k += 1;
        }
        let out = (in_order(&columns), in_order(&sections));
        proof {
            assert(is_sky_floor(sh, standard_opacities(world), floor@));
            assert forall|s: u32| #[trigger] out.1@.contains(s) <==> exists|j: int|
                0 <= j < edits@.len() && reached(sh, floor@, #[trigger] edits@[j], s) by {
                assert(sections@.contains(s) <==> exists|j: int|
                    0 <= j < k && reached(sh, floor@, #[trigger] edits@[j], s));
            }
            assert forall|c: u32| #[trigger] out.0@.contains(c) <==> exists|j: int|
                0 <= j < edits@.len() && section_column(sh, edit_pos(#[trigger] edits@[j])) == c by {
                assert(columns@.contains(c) <==> exists|j: int|
                    0 <= j < k && section_column(sh, edit_pos(#[trigger] edits@[j])) == c);
            }
            assert forall|i: int| 0 <= i < out.0@.len() implies #[trigger] out.0@[i] < sh.nx * sh.nz by {
                assert(out.0@.contains(out.0@[i]));
            }
            assert forall|i: int| 0 <= i < out.1@.len() implies #[trigger] out.1@[i] < sh.sections() by {
                assert(out.1@.contains(out.1@[i]));
            }
            assert(0 <= sh.nx * sh.nz) by (nonlinear_arith)
                requires
                    0 <= sh.nx,
                    0 <= sh.nz,
            ;
            ascending_below(out.0@, sh.nx * sh.nz);
            ascending_below(out.1@, sh.sections());
        }
        out
    }

    /// Every column and every section, for light from nothing.
    pub fn all_jobs(world: &World) -> (out: (Vec<u32>, Vec<u32>))
        requires
            world.wf(),
            world.nx * world.nz <= u32::MAX,
        ensures
            out.0@ == Seq::new((world.nx * world.nz) as nat, |i: int| i as u32),
            out.1@ == Seq::new(world.shape().sections() as nat, |i: int| i as u32),
    {
        assert(world.nx * world.nz >= 0) by (nonlinear_arith);
        let columns = numbers_below(world.nx * world.nz);
        let sections = numbers_below(world.section_count());
        assert(columns@ =~= Seq::new((world.nx * world.nz) as nat, |i: int| i as u32));
        assert(sections@ =~= Seq::new(world.shape().sections() as nat, |i: int| i as u32));
        (columns, sections)
    }

    /// What an update reports, from its counters and the indirect arguments it left.
    pub fn stats(counters: [u32; 3], args: &Vec<u32>) -> (stats: RelaxStats)
        requires
            args@.len() == 39,
        ensures
            stats.relaxations == counters[0],
            stats.iterations == counters[1],
            stats.passes == counters[2],
            stats.unfinished == args@[36],
    {
        RelaxStats {
            relaxations: counters[0],
            iterations: counters[1],
            passes: counters[2],
            unfinished: args[MAX_PASSES * 3],
        }
    }
}

/// A kernel of an update.
#[derive(Clone, Copy, Debug, PartialEq, Eq, Structural)]
pub enum Kernel {
    /// Finds the open floors of a section column.
    Columns,
    /// Takes a section back to its seeds.
    Reset,
    /// Relaxes a section once.
    Relax,
}

impl Kernel {
    /// Its name.
    pub fn name(self) -> (name: &'static str)
        ensures
            name@ == (match self {
                Kernel::Columns => "sky_columns"@,
                Kernel::Reset => "light_reset"@,
                Kernel::Relax => "light_relax"@,
            }),
    {
        match self {
            Kernel::Columns => "sky_columns",
            Kernel::Reset => "light_reset",
            Kernel::Relax => "light_relax",
        }
    }
}

/// The groups of a dispatch: so many, or as many as the indirect arguments at a place say.
#[derive(Clone, Copy, Debug, PartialEq, Eq, Structural)]
pub enum Groups {
    Count(usize),
    Indirect { at: usize },
}

/// A dispatch of an update. Every group is 256 threads.
#[derive(Clone, Copy, Debug)]
pub struct Dispatch {
    pub kernel: Kernel,
    pub params: LightParams,
    pub groups: Groups,
}

/// What a dispatch of `job_count` jobs in pass `pass` is told.
pub open spec fn params_of(l: Lighting, job_count: int, pass: int) -> LightParams {
    LightParams {
        job_count: job_count as u32,
        pass: pass as u32,
        epoch: l.epoch,
        list_cap: l.section_count as u32,
        world: l.world,
    }
}

/// The first `n` relax passes, each as large as its indirect arguments say.
pub open spec fn relaxes(l: Lighting, n: nat) -> Seq<Dispatch> {
    Seq::new(
        n,
        |k: int| Dispatch {
            kernel: Kernel::Relax,
            params: params_of(l, 0, k),
            groups: Groups::Indirect { at: (k * 12) as usize },
        },
    )
}

/// The dispatches of an update: the columns, where there are any, and where there are sections
/// their reset and every relax pass.
pub open spec fn dispatches(l: Lighting, columns: usize, sections: usize) -> Seq<Dispatch> {
    let first = if columns > 0 {
        seq![
            Dispatch {
                kernel: Kernel::Columns,
                params: params_of(l, columns as int, 0),
                groups: Groups::Count(columns),
            },
        ]
    } else {
        Seq::empty()
    };
    if sections > 0 {
        first.push(
            Dispatch {
                kernel: Kernel::Reset,
                params: params_of(l, sections as int, 0),
                groups: Groups::Count(sections),
            },
        ) + relaxes(l, 12)
    } else {
        first
    }
}

/// The copies and fills before an update, in bytes: the indirect arguments, the list of the
/// first pass from the sections to reset, and the stamps and counters set to nothing.
#[derive(Clone, Copy, Debug, PartialEq, Eq, Structural)]
pub struct StateReset {
    pub args: usize,
    pub list: usize,
    pub stamps: usize,
    pub stats: usize,
}

/// An update: the indirect arguments that its passes start with, what is copied before it, and
/// its dispatches.
#[derive(Debug)]
pub struct Update {
    pub args: Vec<u32>,
    pub reset: StateReset,
    pub dispatches: Vec<Dispatch>,
}

/// The indirect arguments of an update of `sections` sections, three words for each pass and
/// three for what is left after the last: the first pass has the sections as its work, and
/// the others none yet.
pub open spec fn first_args(sections: int) -> Seq<u32> {
    Seq::new(
        39,
        |i: int|
            if i % 3 != 0 {
                1
            } else if i == 0 {
                sections as u32
            } else {
                0
            },
    )
}

/// An update of so many columns and sections.
pub open spec fn is_update(l: Lighting, columns: int, sections: int, u: Update) -> bool {
    &&& u.args@ == first_args(sections)
    &&& u.reset == (StateReset {
        args: 156,
        list: (sections * 4) as usize,
        stamps: (l.section_count * 4) as usize,
        stats: 16,
    })
    &&& u.dispatches@ == dispatches(l, columns as usize, sections as usize)
}

impl Lighting {
    /// The numbers fit what the passes are told them in, and there is a next update.
    pub open spec fn fits(&self) -> bool {
        &&& self.section_count <= u32::MAX
        &&& self.section_count * 4 <= usize::MAX
        &&& self.epoch < u32::MAX
    }

    /// What is copied and filled before an update of `sections` sections.
    pub fn encode_state_reset(&self, sections: usize) -> (reset: StateReset)
        requires
            sections <= self.section_count,
            self.section_count * 4 <= usize::MAX,
        ensures
            reset == (StateReset {
                args: 156,
                list: (sections * 4) as usize,
                stamps: (self.section_count * 4) as usize,
                stats: 16,
            }),
    {
        StateReset { args: (MAX_PASSES + 1) * 12, list: sections * 4, stamps: self.section_count * 4, stats: 16 }
    }

    /// The dispatches of the update that was last prepared.
    pub fn encode_prepared(&self, columns: usize, sections: usize) -> (out: Vec<Dispatch>)
        requires
            columns <= u32::MAX,
            sections <= self.section_count,
            self.section_count <= u32::MAX,
        ensures
            out@ == dispatches(*self, columns, sections),
    {
        let mut out: Vec<Dispatch> = Vec::new();
        if columns > 0 {
            out.push(
                Dispatch { kernel: Kernel::Columns, params: self.params(columns, 0), groups: Groups::Count(columns) },
            );
        }
        if sections == 0 {
            assert(out@ =~= dispatches(*self, columns, sections));
            return out;
        }
        out.push(Dispatch { kernel: Kernel::Reset, params: self.params(sections, 0), groups: Groups::Count(sections) });
        let ghost front = out@;
        let mut pass: usize = 0;
        assert(out@ =~= front + relaxes(*self, 0));
        while pass < MAX_PASSES
            invariant
                pass <= MAX_PASSES,
                self.section_count <= u32::MAX,
                out@ == front + relaxes(*self, pass as nat),
            decreases MAX_PASSES - pass,
        {
            out.push(
                Dispatch {
                    kernel: Kernel::Relax,
                    params: self.params(0, pass),
                    groups: Groups::Indirect { at: pass * 12 },
                },
            );
            assert(out@ =~= front + relaxes(*self, (pass + 1) as nat));
            pass += 1;
        }
        assert(out@ =~= dispatches(*self, columns, sections));
        out
    }

    /// Begins an update of some columns and sections, and gives all of it.
    pub fn encode(&mut self, columns: &Vec<u32>, sections: &Vec<u32>) -> (u: Update)
        requires
            old(self).fits(),
            columns@.len() <= u32::MAX,
            sections@.len() <= old(self).section_count,
        ensures
            final(self).section_count == old(self).section_count,
            final(self).world == old(self).world,
            final(self).epoch == old(self).epoch + 1,
            is_update(*final(self), columns@.len() as int, sections@.len() as int, u),
    {
        let args = self.prepare(sections.len());
        let reset = self.encode_state_reset(sections.len());
        let dispatches = self.encode_prepared(columns.len(), sections.len());
        Update { args, reset, dispatches }
    }

    /// The update after `edits` of a world that has them, and its jobs.
    pub fn update(&mut self, world: &World, edits: &Vec<Edit>) -> (out: (Vec<u32>, Vec<u32>, Update))
        requires
            old(self).fits(),
            world.wf(),
            (world.nx * 16) * (world.nz * 16) <= usize::MAX,
            world.nx * world.nz <= u32::MAX,
            old(self).section_count == world.shape().sections(),
            forall|k: int|
                0 <= k < edits@.len() ==> world.shape().has(edit_pos(#[trigger] edits@[k])) && edits@[k].1 <= world.ny * 16,
        ensures
            final(self).section_count == old(self).section_count,
            final(self).world == old(self).world,
            final(self).epoch == old(self).epoch + 1,
            are_jobs(world, edits@, out.0@, out.1@),
            is_update(*final(self), out.0@.len() as int, out.1@.len() as int, out.2),
    {
        let (columns, sections) = Lighting::jobs(world, edits);
        let u = self.encode(&columns, &sections);
        (columns, sections, u)
    }

    /// The update that lights all of `world` from nothing, and its jobs.
    pub fn encode_full(&mut self, world: &World) -> (out: (Vec<u32>, Vec<u32>, Update))
        requires
            old(self).fits(),
            world.wf(),
            world.nx * world.nz <= u32::MAX,
            old(self).section_count == world.shape().sections(),
        ensures
            final(self).section_count == old(self).section_count,
            final(self).world == old(self).world,
            final(self).epoch == old(self).epoch + 1,
            out.0@ == Seq::new((world.nx * world.nz) as nat, |i: int| i as u32),
            out.1@ == Seq::new(world.shape().sections() as nat, |i: int| i as u32),
            is_update(*final(self), out.0@.len() as int, out.1@.len() as int, out.2),
    {
        assert(world.nx * world.nz >= 0) by (nonlinear_arith);
        let (columns, sections) = Lighting::all_jobs(world);
        let u = self.encode(&columns, &sections);
        (columns, sections, u)
    }
}

/// Every pass of an update takes its groups from its own words of the indirect arguments: the
/// first from the sections that the update was made for, and each other from words that start
/// at none, which the pass before it fills.
pub proof fn passes_follow_each_other(l: Lighting, columns: usize, sections: usize, k: int)
    requires
        0 < sections <= u32::MAX,
        0 <= k < 12,
    ensures
        ({
            let all = dispatches(l, columns, sections);
            let d = all[all.len() - 12 + k];
            &&& all.len() == 13 + (if columns > 0 {
                1int
            } else {
                0
            })
            &&& d.kernel is Relax
            &&& d.params.pass == k
            &&& d.groups == Groups::Indirect { at: (12 * k) as usize }
            &&& first_args(sections as int)[3 * k] == (if k == 0 {
                sections as u32
            } else {
                0
            })
            &&& 12 * k + 12 <= 156
        }),
{
}

/// The columns and sections to compute after `edits`: the section column of each edit, and the
/// sections within its reach, each once and in order.
pub open spec fn are_jobs(world: &World, edits: Seq<Edit>, columns: Seq<u32>, sections: Seq<u32>) -> bool {
    &&& ascends(columns)
    &&& ascends(sections)
    &&& forall|c: u32| #[trigger]
        columns.contains(c) <==> exists|k: int|
            0 <= k < edits.len() && section_column(world.shape(), edit_pos(#[trigger] edits[k])) == c
    &&& exists|floor: Seq<u32>| #[trigger]
        is_sky_floor(world.shape(), standard_opacities(world), floor) && forall|s: u32| #[trigger]
            sections.contains(s) <==> exists|k: int|
                0 <= k < edits.len() && reached(world.shape(), floor, #[trigger] edits[k], s)
}

/// The section `s` is within reach of an edit, in a world whose open floors are `floor`.
pub open spec fn reached(sh: Shape, floor: Seq<u32>, e: Edit, s: u32) -> bool {
    let p = edit_pos(e);
    within_reach(sh, p, e.1 as int, floor[column(sh, p.x, p.z)] as int).contains(s)
}

/// The numbers of a position's column and section column fit.
proof fn column_fits(sh: Shape, p: Pos)
    requires
        sh.wf(),
        sh.has(p),
    ensures
        0 <= sh.nx * 16 * p.z,
        0 <= p.x + sh.nx * 16 * p.z < (sh.nx * 16) * (sh.nz * 16),
        0 <= sh.nx * (p.z / 16),
        0 <= section_column(sh, p) < sh.nx * sh.nz,
{
    assert(0 <= sh.nx * 16 * p.z) by (nonlinear_arith)
        requires
            0 <= sh.nx,
            0 <= p.z,
    ;
    assert(p.x + sh.nx * 16 * p.z < (sh.nx * 16) * (sh.nz * 16)) by (nonlinear_arith)
        requires
            0 <= p.x < sh.nx * 16,
            p.z + 1 <= sh.nz * 16,
    ;
    let (x, z) = (p.x / 16, p.z / 16);
    assert(0 <= x < sh.nx && 0 <= z < sh.nz);
    assert(0 <= sh.nx * z && x + sh.nx * z < sh.nx * sh.nz) by (nonlinear_arith)
        requires
            0 <= x < sh.nx,
            0 <= z,
            z + 1 <= sh.nz,
    ;
}

} // verus!
