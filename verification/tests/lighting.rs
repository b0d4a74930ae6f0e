//! Exact light values, on small worlds, a big lit world, and through edits; ambient
//! occlusion in faces; and what is sent to and read from a GPU.
use scarlet::lighting::block_light::{add_block_light, dynamic_light, remove_block_light};
use scarlet::lighting::cpu_light::{compute, corner, corner_ao, face_ao, Buckets, Light};
use scarlet::lighting::cpu_mesh::mesh_section;
use scarlet::lighting::face::Face;
use scarlet::lighting::gpu::{buffer_bytes, library};
use scarlet::lighting::gpu_types::{SectionMesh, NONE};
use scarlet::lighting::light::{Groups, Kernel, Lighting, StateReset};
use scarlet::lighting::light_cpu::{dec, full, pack, sky_floor};
use scarlet::lighting::mesher::{MeshPass, Mesher};
use scarlet::lighting::png::{adler32, chunk, crc32, png_bytes};
use scarlet::lighting::relight::{affected_sections, recompute_sections};
use scarlet::lighting::render::{Draw, Renderer};
use scarlet::lighting::scene::{dirty_for, Scene};
use scarlet::lighting::terrain::Spots;
use scarlet::lighting::world::{
    Rules, World, AIR, DIRT, GLASS, GLOWSTONE, GRASS, LAVA, LEAVES, SEA_LANTERN, STONE, TORCH, WATER,
};
use scarlet::voxel::ground::noise_bits;

const BIG: (usize, usize, usize) = (16, 8, 16); // 256 x 128 x 256 blocks

fn hash(seed: u32, x: i32, y: i32, z: i32) -> f32 {
    noise_bits(seed, x as u32, y as u32, z as u32) as f32 / 65535.0
}

fn smooth(t: f32) -> f32 {
    t * t * (3.0 - 2.0 * t)
}

fn lerp(a: f32, b: f32, t: f32) -> f32 {
    a + (b - a) * t
}

fn value3(seed: u32, x: f32, y: f32, z: f32) -> f32 {
    let (x0, y0, z0) = (x.floor(), y.floor(), z.floor());
    let (tx, ty, tz) = (smooth(x - x0), smooth(y - y0), smooth(z - z0));
    let (ix, iy, iz) = (x0 as i32, y0 as i32, z0 as i32);
    let c = |dx, dy, dz| hash(seed, ix + dx, iy + dy, iz + dz);
    let x00 = lerp(c(0, 0, 0), c(1, 0, 0), tx);
    let x10 = lerp(c(0, 1, 0), c(1, 1, 0), tx);
    let x01 = lerp(c(0, 0, 1), c(1, 0, 1), tx);
    let x11 = lerp(c(0, 1, 1), c(1, 1, 1), tx);
    lerp(lerp(x00, x10, ty), lerp(x01, x11, ty), tz)
}

fn fbm(seed: u32, octaves: u32, x: f32, y: f32, z: f32) -> f32 {
    let (mut sum, mut amp, mut freq, mut norm) = (0.0, 1.0, 1.0, 0.0);
    for octave in 0..octaves {
        sum += amp * value3(seed.wrapping_add(octave), x * freq, y * freq, z * freq);
        norm += amp;
        amp *= 0.5;
        freq *= 2.0;
    }
    sum / norm
}

/// Terrain of so many sections, from a seed.
fn terrain(nx: usize, ny: usize, nz: usize, seed: u32) -> World {
    let w = World::new(nx, ny, nz);
    let [sx, sy, sz] = w.size_blocks();
    let mut heights = vec![0usize; sx * sz];
    let mut caves = vec![false; w.blocks.len()];
    for x in 0..sx {
        for z in 0..sz {
            let n = fbm(seed, 5, x as f32 / 96.0, 0.0, z as f32 / 96.0);
            let h = ((sy as f32) * (0.22 + 0.5 * n)) as usize;
            heights[x + sx * z] = h;
            for y in 3..=h.clamp(1, sy - 1) {
                caves[w.index(x, y, z)] =
                    fbm(seed ^ 0x9E37_79B9, 3, x as f32 / 28.0, y as f32 / 18.0, z as f32 / 28.0) > 0.62;
            }
        }
    }
    World::terrain(nx, ny, nz, &heights, &caves)
}
fn lit_terrain(nx: usize, ny: usize, nz: usize, seed: u32) -> (World, Spots) {
    World::lit_terrain(terrain(nx, ny, nz, seed))
}

fn world_with(n: [usize; 3], blocks: &[([usize; 3], u16)]) -> World {
    let mut w = World::new(n[0], n[1], n[2]);
    for &([x, y, z], b) in blocks {
        w.set(x, y, z, b);
    }
    w
}

fn cpu_faces(w: &World) -> Vec<Vec<Face>> {
    let rules = Rules::standard();
    (0..w.section_count()).map(|s| mesh_section(w, &rules, s)).collect()
}

/// The light that is kept must equal the light computed afresh, cell for cell.
fn assert_light_exact(w: &World, light: &[u8], what: &str) {
    let expected = compute(w, &Rules::standard());
    let diff = expected.diff(&Light { data: light.to_vec() }, w);
    assert!(diff.is_empty(), "{what}: {} cells differ, first {:?}", diff.len(), &diff[..diff.len().min(8)]);
}

/// A world, and its light kept up to date.
struct Lit {
    world: World,
    floor: Vec<u32>,
    light: Vec<u8>,
}

impl Lit {
    fn new(world: World) -> Lit {
        let floor = sky_floor(&world);
        let light = full(&world);
        Lit { world, floor, light }
    }

    /// Sets a block, and relights the sections that it can reach.
    fn set_block(&mut self, p: [usize; 3], b: u16) -> usize {
        let [x, y, z] = p;
        let column = x + self.world.size_blocks()[0] * z;
        self.world.set(x, y, z, b);
        let before = self.floor[column];
        self.floor = sky_floor(&self.world);
        let sections = affected_sections(&self.world, p, before, self.floor[column]);
        recompute_sections(&self.world, &self.floor, &mut self.light, &sections);
        sections.len()
    }
}

#[test]
fn face_pack_round_trips() {
    let f = Face { pos: [15, 3, 9], dir: 5, w: 16, h: 7, ao: 0b11_10_01_00, state: 0xBEEF, quad: 42 };
    assert_eq!(Face::unpack(f.pack()), f);
    assert_eq!(Face::unit([0, 0, 0], 0, 0, 1).pack(), [0, 1]);
}

#[test]
fn faces_carry_the_cpu_ambient_occlusion() {
    // A block with a neighbour beside and one diagonal, across a section
    // border, so every corner rule is exercised.
    let w = world_with(
        [2, 1, 2],
        &[([15, 4, 5], STONE), ([16, 4, 5], STONE), ([16, 5, 6], STONE), ([15, 5, 4], GLASS), ([14, 3, 5], LEAVES)],
    );
    let rules = Rules::standard();
    let got = cpu_faces(&w);
    // Something in there really has occlusion.
    assert!(got.iter().flatten().any(|f| f.ao > 0));
    for (s, list) in got.iter().enumerate() {
        let [cx, cy, cz] = w.section_coords(s);
        for f in list {
            let c = [
                cx as i32 * 16 + f.pos[0] as i32,
                cy as i32 * 16 + f.pos[1] as i32,
                cz as i32 * 16 + f.pos[2] as i32,
            ];
            let ao = face_ao(&w, &rules, c, f.dir as usize);
            assert_eq!(f.ao, ao[0] | (ao[1] << 2) | (ao[2] << 4) | (ao[3] << 6), "{f:?}");
        }
    }
    // The first stone's top face: only its (+u, +v) corner sees a full block
    // diagonally, the stone at (16, 5, 6); the glass beside does not count.
    let f = got[0].iter().find(|f| f.pos == [15, 4, 5] && f.dir == 3).expect("the top face of the first stone");
    assert_eq!([f.ao & 3, (f.ao >> 2) & 3, (f.ao >> 4) & 3, f.ao >> 6], [0, 0, 0, 1]);
}

#[test]
fn small_worlds_light_exactly() {
    let cases: Vec<(&str, World)> = vec![
        ("empty", world_with([1, 1, 1], &[])),
        ("one stone", world_with([1, 1, 1], &[([5, 5, 5], STONE)])),
        ("a torch", world_with([1, 1, 1], &[([5, 5, 5], TORCH)])),
        (
            "a torch under a roof",
            world_with(
                [2, 2, 2],
                &(0..32)
                    .flat_map(|x| (0..32).map(move |z| ([x, 20, z], STONE)))
                    .chain([([16, 10, 16], TORCH), ([3, 3, 3], GLOWSTONE)])
                    .collect::<Vec<_>>(),
            ),
        ),
        (
            "water and glass columns",
            world_with(
                [1, 2, 1],
                &(0..32)
                    .map(|y| ([4, y, 4], WATER))
                    .chain((0..32).map(|y| ([8, y, 8], GLASS)))
                    .chain((0..32).map(|y| ([12, y, 12], LEAVES)))
                    .chain([([4, 0, 5], TORCH), ([4, 1, 5], SEA_LANTERN)])
                    .collect::<Vec<_>>(),
            ),
        ),
    ];
    for (name, w) in cases {
        assert_light_exact(&w, &full(&w), name);
    }
}

#[test]
fn a_roof_makes_sky_light_flow_sideways_and_down() {
    // Under a roof with a hole, sky light is 15 straight down the hole and
    // falls by one per block sideways under the roof: the classic picture.
    let mut blocks: Vec<([usize; 3], u16)> = (0..16).flat_map(|x| (0..16).map(move |z| ([x, 8, z], STONE))).collect();
    blocks.retain(|(p, _)| p[0] != 8 || p[2] != 8);
    let w = world_with([1, 1, 1], &blocks);
    let light = compute(&w, &Rules::standard());
    assert_eq!(light.sky(&w, 8, 3, 8), 15);
    assert_eq!(light.sky(&w, 9, 3, 8), 14);
    assert_eq!(light.sky(&w, 11, 3, 8), 12);
    assert_eq!(light.sky(&w, 8, 8, 8), 15);
    assert_eq!(light.sky(&w, 0, 8, 0), 0, "inside stone");
    assert_light_exact(&w, &full(&w), "roof");
}

#[test]
fn the_big_world_lights_exactly() {
    let (w, _) = lit_terrain(BIG.0, BIG.1, BIG.2, 7);
    assert_light_exact(&w, &full(&w), "big world");
}

#[test]
fn edits_stay_exact() {
    let (w, spots) = lit_terrain(BIG.0, BIG.1, BIG.2, 7);
    let mut lit = Lit::new(w);
    let [px, py, pz] = spots.plaza;
    let edits: Vec<(&str, [usize; 3], u16)> = vec![
        ("place a torch", [px + 2, py, pz + 2], TORCH),
        ("remove it", [px + 2, py, pz + 2], AIR),
        ("place stone on the plaza", [px - 2, py, pz], STONE),
        ("remove the plaza torch", spots.torches[0], AIR),
        ("dig into the plaza", [px, py - 1, pz], AIR),
        ("dig deeper", [px, py - 2, pz], AIR),
        ("glowstone in the hole", [px, py - 2, pz], GLOWSTONE),
        ("fill the hole", [px, py - 1, pz], STONE),
        ("water the plaza", [px + 3, py, pz - 3], WATER),
        ("drain it", [px + 3, py, pz - 3], AIR),
        ("lava on the plaza", [px - 6, py, pz + 6], LAVA),
        ("cover the lava", [px - 6, py + 1, pz + 6], STONE),
        ("cool the lava", [px - 6, py, pz + 6], STONE),
        ("a block at the world's top edge", [px, 127, pz], STONE),
        ("and gone", [px, 127, pz], AIR),
        ("a block at the corner", [0, 127, 0], STONE),
        ("a torch at the corner", [0, 0, 0], TORCH),
    ];
    for (what, p, b) in edits {
        let relit = lit.set_block(p, b);
        assert!(relit >= 1, "{what}: nothing relit");
        assert_light_exact(&lit.world, &lit.light, what);
    }
}

#[test]
fn random_edits_stay_exact() {
    let (w, spots) = lit_terrain(4, 4, 4, 11);
    let mut lit = Lit::new(w);
    let mut seed = 0x1234_5678u32;
    let mut next = || {
        seed ^= seed << 13;
        seed ^= seed >> 17;
        seed ^= seed << 5;
        seed
    };
    let kinds = [AIR, AIR, STONE, TORCH, GLOWSTONE, WATER, GLASS, LEAVES, LAVA];
    for i in 0..40 {
        let [cx, cy, cz] = spots.plaza;
        let p = [
            (cx as i32 + (next() % 24) as i32 - 12).clamp(0, 63) as usize,
            (cy as i32 + (next() % 12) as i32 - 6).clamp(0, 63) as usize,
            (cz as i32 + (next() % 24) as i32 - 12).clamp(0, 63) as usize,
        ];
        let b = kinds[(next() % kinds.len() as u32) as usize];
        lit.set_block(p, b);
        assert_light_exact(&lit.world, &lit.light, &format!("random edit {i} at {p:?} -> {b}"));
    }
}

/// The corners that shading sees agree with the occlusion bits of the faces.
#[test]
fn the_corners_of_faces_agree_with_their_occlusion() {
    let (w, spots) = lit_terrain(4, 4, 4, 11);
    let rules = Rules::standard();
    let light = compute(&w, &rules);
    let [px, py, pz] = spots.plaza;
    let s = w.section_index(px / 16, py / 16, pz / 16);
    let [cx, cy, cz] = w.section_coords(s);
    let mut occluded = 0;
    for f in mesh_section(&w, &rules, s) {
        let c = [
            cx as i32 * 16 + f.pos[0] as i32,
            cy as i32 * 16 + f.pos[1] as i32,
            cz as i32 * 16 + f.pos[2] as i32,
        ];
        for k in 0..4 {
            let got = corner(&w, &rules, &light, c, f.dir as usize, k & 1 != 0, k & 2 != 0);
            assert_eq!((f.ao >> (2 * k)) & 3, got.occluders, "{f:?}");
            assert_eq!(corner_ao(&w, &rules, c, f.dir as usize, k & 1 != 0, k & 2 != 0), got.occluders);
            occluded += u32::from(got.occluders > 0);
        }
    }
    assert!(occluded > 10, "{occluded}");
}

fn top_face(w: &World) -> Face {
    *cpu_faces(w)[0].iter().find(|f| f.pos == [5, 5, 5] && f.dir == 3).expect("top face")
}

#[test]
fn ambient_occlusion_per_corner() {
    let mut w = World::new(1, 1, 1);
    // A floor block with one neighbour on top beside it (+X, one up): the
    // floor's top face gets occlusion on its two +X corners only.
    w.set(5, 5, 5, STONE);
    w.set(6, 6, 5, STONE);
    let top = top_face(&w);
    // On a +Y face u is z and v is x. Corners with v = +x have one side
    // occluder: level 1; others 0.
    let level = |cu: u8, cv: u8| (top.ao >> (2 * (cu + 2 * cv))) & 3;
    assert_eq!((level(0, 0), level(1, 0), level(0, 1), level(1, 1)), (0, 0, 1, 1));
    // Two sides occluding hide the diagonal: level 3.
    w.set(5, 6, 6, STONE);
    assert_eq!((top_face(&w).ao >> (2 * (1 + 2))) & 3, 3);
}

#[test]
fn ao_reads_across_section_edges_and_corners() {
    let mut w = World::new(2, 2, 2);
    // Blocks at a corner where eight sections meet.
    for (x, y, z) in [(15, 15, 15), (16, 16, 15), (15, 16, 16), (16, 16, 16), (16, 15, 16)] {
        w.set(x, y, z, STONE);
    }
    let rules = Rules::standard();
    // The top of the block below the corner: three blocks above it and beside it.
    let list = mesh_section(&w, &rules, w.section_index(0, 0, 0));
    let top = list.iter().find(|f| f.pos == [15, 15, 15] && f.dir == 3).expect("top face");
    assert_eq!(top.ao >> 6, 3);
    assert_eq!(top.ao & 3, 0);
}

#[test]
fn water_goes_to_the_translucent_run() {
    let mut w = World::new(1, 1, 1);
    w.set(1, 1, 1, WATER);
    w.set(2, 1, 1, WATER);
    w.set(1, 0, 1, STONE);
    let faces = &cpu_faces(&w)[0];
    let water = faces.iter().filter(|f| f.state == WATER).count();
    assert_eq!(water, 10 - 1, "two water blocks: 10 faces, one against the stone below");
    assert_eq!(faces.len() - water, 6, "the stone's faces, its top against water shown");
}

#[test]
fn remeshing_the_touched_sections_stays_exact() {
    let rules = Rules::standard();
    let mut w = terrain(4, 4, 4, 3);
    let mut kept = cpu_faces(&w);
    let mut rng = 0x1234_5678u32;
    for _round in 0..30 {
        let mut touched = Vec::new();
        for _ in 0..8 {
            rng ^= rng << 13;
            rng ^= rng >> 17;
            rng ^= rng << 5;
            let (x, y, z) = ((rng % 64) as usize, ((rng >> 8) % 64) as usize, ((rng >> 16) % 64) as usize);
            let b = [AIR, STONE, GLASS, LEAVES, WATER, TORCH][(rng >> 24) as usize % 6];
            w.set(x, y, z, b);
            touched.extend(w.sections_touching(x, y, z));
        }
        touched.sort();
        touched.dedup();
        for &s in &touched {
            kept[s as usize] = mesh_section(&w, &rules, s as usize);
        }
        assert!(kept == cpu_faces(&w));
    }
}

#[test]
fn faces_are_in_order_and_each_once() {
    let w = terrain(4, 4, 4, 3);
    for list in cpu_faces(&w) {
        let keys: Vec<(u8, u8, u8, u8)> = list.iter().map(|f| (f.pos[0], f.pos[1], f.pos[2], f.dir)).collect();
        let mut sorted = keys.clone();
        sorted.sort();
        sorted.dedup();
        assert_eq!(keys.len(), sorted.len());
    }
}

#[test]
fn a_torch_lights_what_is_near() {
    let w = world_with([1, 1, 1], &[([8, 8, 8], TORCH)]);
    let light = compute(&w, &Rules::standard());
    assert_eq!(light.block(&w, 8, 8, 8), 14);
    assert_eq!(light.block(&w, 9, 8, 8), 13);
    assert_eq!(light.block(&w, 9, 9, 9), 11);
    assert_eq!(light.get(&w, 8, 16, 8), 240, "the sky above the world");
    assert_eq!(light.get(&w, -1, 3, 8), 0, "beside the world");
    assert_eq!(pack(15, 3), 0xF3);
    assert_eq!((dec(AIR), dec(STONE), dec(WATER) >= 1), (1, 15, true));
}

/// Block light that is added to a world is the light of the world with the block in it,
/// and taking it away again gives back what was there.
#[test]
fn block_light_comes_and_goes() {
    let dark = world_with([2, 1, 2], &(0..32).flat_map(|x| (0..32).map(move |z| ([x, 15, z], STONE))).collect::<Vec<_>>());
    let p = [15, 7, 16];
    let before = full(&dark);
    let mut light = before.clone();
    let mut torch = world_with([2, 1, 2], &(0..32).flat_map(|x| (0..32).map(move |z| ([x, 15, z], STONE))).collect::<Vec<_>>());
    torch.set(p[0], p[1], p[2], TORCH);
    add_block_light(&dark, &mut light, p, 14);
    assert_light_exact(&torch, &light, "added");
    remove_block_light(&dark, &mut light, p);
    assert_eq!(light, before);
    let alone = dynamic_light(&dark, p, 14);
    assert_eq!(alone[dark.index(15, 7, 16)], 14);
    assert_eq!(alone[dark.index(16, 7, 16)], 13);
    assert_eq!(alone[dark.index(0, 0, 0)], 0);
}

#[test]
fn the_brightest_cell_comes_out_first() {
    let mut q = Buckets::new();
    q.push(3, 30);
    q.push(14, 1);
    q.push(9, 2);
    assert_eq!(q.pop().map(|e| e.0), Some(14));
    assert_eq!(q.pop(), Some((9, 2)));
    assert_eq!(q.pop(), Some((3, 30)));
    assert_eq!(q.pop(), None);
}

#[test]
fn lit_terrain_has_its_spots() {
    let (w, spots) = lit_terrain(4, 4, 4, 11);
    let at = |p: [usize; 3]| w.get(p[0] as i32, p[1] as i32, p[2] as i32);
    assert_eq!(spots.torches.len(), 6);
    for t in &spots.torches {
        assert_eq!(at(*t), TORCH);
    }
    assert_eq!(at([spots.plaza[0], spots.plaza[1] - 1, spots.plaza[2]]), GRASS);
    assert_eq!(w.get(32, 0, 32), STONE);
    assert!(w.blocks.contains(&LAVA) && w.blocks.contains(&SEA_LANTERN) && w.blocks.contains(&DIRT));
}

#[test]
fn an_edit_says_what_to_relight() {
    let w = World::new(3, 3, 3);
    let rules = Rules::standard();
    let here = w.section_index(1, 1, 1) as u32;
    let rise = dirty_for(&w, &rules, [24, 24, 24], AIR, TORCH);
    assert!(rise.reset.is_empty(), "{rise:?}");
    assert_eq!(rise.list, vec![here]);
    let fall = dirty_for(&w, &rules, [24, 24, 24], TORCH, AIR);
    assert_eq!(fall.reset.len(), 27);
    assert_eq!(fall.list, fall.reset);
    let shadow = dirty_for(&w, &rules, [24, 24, 24], AIR, STONE);
    assert_eq!(shadow.reset.len(), 27);
    let corner = dirty_for(&w, &rules, [0, 0, 0], AIR, STONE);
    assert_eq!(corner.reset.len(), 8);
    assert_eq!(corner.reset[0], w.section_index(0, 1, 0) as u32, "from above down");
    let same = dirty_for(&w, &rules, [24, 24, 24], DIRT, STONE);
    assert!(same.reset.is_empty(), "{same:?}");
    assert_eq!(same.list, vec![here]);
}

#[test]
fn sections_and_places() {
    let w = World::new(2, 3, 4);
    assert_eq!(w.section_count(), 24);
    assert_eq!(w.size_blocks(), [32, 48, 64]);
    for s in 0..24 {
        let [x, y, z] = w.section_coords(s);
        assert_eq!(w.section_index(x, y, z), s);
        assert_eq!(w.section_at(x as i32, y as i32, z as i32), Some(s));
    }
    assert_eq!(w.section_at(2, 0, 0), None);
    assert_eq!(w.section_at(-1, 0, 0), None);
    assert!(w.in_bounds(31, 47, 63) && !w.in_bounds(32, 0, 0) && !w.in_bounds(0, -1, 0));
    assert_eq!(w.sections_touching(5, 5, 5), vec![w.section_index(0, 0, 0) as u32]);
    assert_eq!(w.sections_touching(15, 16, 16).len(), 8);
    assert_eq!(w.directory().len(), 24);
    assert_eq!(w.section_infos().len(), 24);
    let hill = world_with([1, 1, 1], &[([3, 4, 5], STONE), ([3, 9, 5], GLASS)]);
    assert_eq!(hill.top(0, 0), None);
    assert_eq!(hill.top(3, 5), Some(9));
}

#[test]
fn updates_of_the_light() {
    let w = World::new(2, 1, 2);
    let mut lighting = Lighting::new(&w);
    assert_eq!(lighting.light_bytes(), 4 * 4096);
    let args = lighting.prepare(3);
    assert_eq!(args.len(), 39);
    assert_eq!(lighting.epoch, 1);
    let p = lighting.params(3, 2);
    assert_eq!(p.job_count, 3);
    let (columns, sections) = Lighting::all_jobs(&w);
    assert_eq!((columns, sections), (vec![0, 1, 2, 3], vec![0, 1, 2, 3]));
    let (columns, sections) = Lighting::jobs(&w, &vec![([5, 5, 20], 0)]);
    assert_eq!(columns, vec![2]);
    assert_eq!(sections, vec![0, 1, 2, 3]);
    let stats = Lighting::stats([7, 8, 9], &vec![0; 39]);
    assert_eq!((stats.relaxations, stats.iterations, stats.passes, stats.unfinished), (7, 8, 9, 0));
}

#[test]
fn faces_are_read_out_of_their_slots() {
    let w = world_with([1, 1, 1], &[([3, 4, 5], STONE)]);
    let m = Mesher::new(&w, 1 << 10);
    assert_eq!(m.all_jobs(), vec![0]);
    let mut want = cpu_faces(&w)[0].clone();
    want.sort();
    let mut by_dir = want.clone();
    by_dir.sort_by_key(|f| f.dir);
    let mut buffer = vec![[0u32; 2]; 64];
    for (i, f) in by_dir.iter().enumerate() {
        buffer[8 + i] = f.pack();
    }
    let mut mesh = SectionMesh::empty();
    assert_eq!(mesh.offset, NONE);
    assert_eq!(Mesher::read_faces(&vec![mesh], &buffer), Some(vec![vec![]]));
    mesh.offset = 8;
    mesh.capacity = 56;
    mesh.count = [1; 6];
    assert_eq!(mesh.total(), 6);
    assert_eq!(Mesher::read_faces(&vec![mesh], &buffer), Some(vec![want]));
    buffer[8] = by_dir[5].pack();
    assert_eq!(Mesher::read_faces(&vec![mesh], &buffer), None, "a face in another direction's run");
}

#[test]
fn the_renderers_ring() {
    let r = Renderer::new(4, 1000);
    assert_eq!(Renderer::args_words().len(), 5);
    assert!(r.last_count_byte() < 3 * 2304);
}

#[test]
fn a_picture_is_a_png() {
    assert_eq!(crc32(&b"123456789".to_vec()), 0xCBF4_3926);
    assert_eq!(crc32(&b"IEND".to_vec()), 0xAE42_6082);
    assert_eq!(adler32(&b"Wikipedia".to_vec()), 0x11E6_0398);
    let mut end = Vec::new();
    chunk(&mut end, b"IEND", &Vec::new());
    assert_eq!(end, vec![0, 0, 0, 0, b'I', b'E', b'N', b'D', 0xAE, 0x42, 0x60, 0x82]);
    let png = png_bytes(1, 1, &vec![[1, 2, 3, 4]]);
    assert_eq!(&png[..8], b"\x89PNG\r\n\x1a\n");
    assert_eq!(&png[12..16], b"IHDR");
    assert_eq!(&png[16..24], &[0, 0, 0, 1, 0, 0, 0, 1]);
    assert_eq!(&png[png.len() - 12..], &end[..]);
}

#[test]
fn a_frame_is_drawn_from_what_was_kept() {
    let mut r = Renderer::new(130, 1 << 20);
    for (frame, slot) in [0, 2304, 4608, 0].into_iter().enumerate() {
        let plan = r.encode_frame(frame % 2 == 1);
        assert_eq!((plan.uniforms_at, plan.water_at, plan.args_at), (slot, slot + 1024, slot + 2048));
        assert_eq!(plan.args, [96, 0, 0, 0, 0]);
        assert_eq!((plan.cull.section_count, plan.cull.groups, plan.cull.threads), (130, 3, 64));
        assert_eq!((plan.cull.chunk_shift, plan.cull.chunk_capacity), (4, (1 << 16) + 780));
        assert_eq!((plan.cull.uniforms_at, plan.cull.args_at), (slot, slot + 2048));
        let mut draws = vec![Draw { uniforms_at: slot, args_at: slot + 2048, water: false }];
        if frame % 2 == 1 {
            draws.push(Draw { uniforms_at: slot + 1024, args_at: slot + 2048, water: true });
        }
        assert_eq!(plan.draws, draws);
    }
}

#[test]
fn an_update_is_its_dispatches() {
    let w = World::new(2, 1, 2);
    let mut l = Lighting::new(&w);
    let (columns, sections, u) = l.encode_full(&w);
    assert_eq!((columns, sections), (vec![0, 1, 2, 3], vec![0, 1, 2, 3]));
    assert_eq!(u.reset, StateReset { args: 156, list: 16, stamps: 16, stats: 16 });
    assert_eq!((u.args.len(), &u.args[..4]), (39, &[4, 1, 1, 0][..]));
    assert_eq!(u.dispatches.len(), 14);
    let first: Vec<(Kernel, Groups)> = u.dispatches.iter().take(3).map(|d| (d.kernel, d.groups)).collect();
    assert_eq!(
        first,
        vec![
            (Kernel::Columns, Groups::Count(4)),
            (Kernel::Reset, Groups::Count(4)),
            (Kernel::Relax, Groups::Indirect { at: 0 }),
        ]
    );
    let last = &u.dispatches[13];
    assert_eq!((last.kernel.name(), last.groups), ("light_relax", Groups::Indirect { at: 132 }));
    assert_eq!((last.params.pass, last.params.epoch, last.params.list_cap, last.params.job_count), (11, 1, 4, 0));
    assert_eq!(last.params.world, [32, 16, 32, 0]);
    // With no section there is nothing to relax, and with no column nothing at all.
    assert_eq!(l.encode(&vec![2], &vec![]).dispatches.len(), 1);
    assert_eq!(l.encode(&vec![], &vec![]).dispatches.len(), 0);
    assert_eq!(l.encode(&vec![], &vec![3]).dispatches.len(), 13);
    assert_eq!(l.epoch, 4);
    // After an edit: its column, and the sections within reach.
    let (columns, sections, u) = l.update(&w, &vec![([0, 8, 0], 0)]);
    assert_eq!((columns, sections), (vec![0], vec![0]));
    assert_eq!(u.dispatches.len(), 14);
    // 15 blocks from 1 are in the next section.
    let (columns, sections, u) = l.update(&w, &vec![([1, 8, 1], 0)]);
    assert_eq!((columns, sections), (vec![0], vec![0, 1, 2, 3]));
    assert_eq!(u.dispatches.len(), 14);
}

#[test]
fn a_scene_says_what_an_edit_needs() {
    let mut scene = Scene::new(World::new(2, 2, 2));
    let edit = scene.set_block([15, 3, 3], TORCH);
    assert_eq!(scene.world.get(15, 3, 3), TORCH);
    assert_eq!(edit.upload, scene.world.section_index(0, 0, 0));
    assert_eq!(edit.remesh.len(), 2);
    assert_eq!((edit.dirty.reset.len(), edit.dirty.list.len()), (0, 1));
    let edit = scene.set_block([15, 3, 3], AIR);
    assert_eq!((edit.dirty.reset.len(), edit.dirty.list.len()), (8, 8));
    let (at, blocks) = Mesher::upload_section(&scene.world, 1);
    assert_eq!((at, blocks.len()), (4096, 4096));
    let m = Mesher::new(&scene.world, 1 << 16);
    assert_eq!(m.encode(&edit.remesh), MeshPass { job_count: 2, release_groups: 1, mesh_groups: 2 });
}

#[test]
fn kernels_are_compiled_behind_what_they_share() {
    assert_eq!(library("common", &vec![]), "common");
    assert_eq!(library("common", &vec!["shade", "draw"]), "common\nshade\ndraw");
    assert_eq!([0, 16, 17].map(buffer_bytes), [16, 16, 17]);
}

#[test]
fn emitters_that_let_no_light_through_are_added_exactly() {
    let roof = (0..32).flat_map(|x| (0..32).map(move |z| ([x, 15, z], STONE))).collect::<Vec<_>>();
    for (block, level) in [(GLOWSTONE, 15), (LAVA, 15), (SEA_LANTERN, 15), (TORCH, 14)] {
        for near in [AIR, TORCH, GLOWSTONE] {
            let mut w = world_with([2, 1, 2], &roof);
            w.set(14, 7, 16, near);
            let mut light = full(&w);
            w.set(15, 7, 16, block);
            add_block_light(&w, &mut light, [15, 7, 16], level);
            assert_light_exact(&w, &light, "added");
        }
    }
}

#[test]
fn what_an_edit_cannot_reach_keeps_its_light() {
    let (w, _) = lit_terrain(5, 4, 5, 3);
    let before = full(&w);
    for (p, block) in [([40, 20, 40], AIR), ([40, 60, 40], STONE), ([0, 0, 0], GLOWSTONE)] {
        let mut edited = World::new(5, 4, 5);
        edited.blocks.clone_from(&w.blocks);
        edited.set(p[0], p[1], p[2], block);
        let column = p[0] + w.size_blocks()[0] * p[2];
        let (old_floor, new_floor) = (sky_floor(&w)[column], sky_floor(&edited)[column]);
        let sections = affected_sections(&edited, p, old_floor, new_floor);
        assert!(sections.windows(2).all(|s| s[0] < s[1]), "{sections:?}");
        assert!(sections.len() < w.section_count());
        let after = full(&edited);
        for (i, (a, b)) in before.iter().zip(&after).enumerate() {
            assert!(a == b || sections.contains(&((i / 4096) as u32)), "{p:?} {i}");
        }
    }
}

#[test]
fn corners_at_the_ends_of_the_numbers() {
    let w = world_with([1, 1, 1], &[]);
    let rules = Rules::standard();
    let light = compute(&w, &rules);
    let low = corner(&w, &rules, &light, [i32::MIN + 1, 0, i32::MIN + 1], 3, false, false);
    assert_eq!(low.occluders, 0);
    let high = corner(&w, &rules, &light, [i32::MAX - 1, 0, i32::MAX - 1], 3, true, true);
    assert_eq!(high.occluders, 0);
    let edge = corner(&w, &rules, &light, [i32::MIN, 0, i32::MAX - 1], 3, true, true);
    assert_eq!(edge.occluders, 0);
}
