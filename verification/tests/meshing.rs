//! Exact face counts, greedy meshing against plain meshing, and what is sent to and read
//! from a GPU.
use scarlet::meshing::bmp::bmp_bytes;
use scarlet::meshing::cpu_mesh::{mesh_section, mesh_section_greedy};
use scarlet::meshing::face::Face;
use scarlet::meshing::gpu_types::{AllocState, SectionMesh, NONE};
use scarlet::meshing::mesher::{AllocMode, Fill, Mesher, Meshing};
use scarlet::meshing::render::{visible_faces, CullOutput, Draw, DrawOptions, DrawPass, InView, Pipeline, Renderer};
use scarlet::meshing::sweep::{sweep_layer, Rect};
use scarlet::meshing::world::{Rules, World, AIR, DIRT, GLASS, LEAVES, STONE};
use scarlet::voxel::frames::{chunk16_capacity, chunk_capacity, quad_indices, stage_ticks, FrameRing};
use scarlet::voxel::ground::noise_bits;
use scarlet::voxel::nibble::{high_of, join, low_of};
use scarlet::voxel::slots::stack_bases;

const BIG: (usize, usize, usize) = (16, 8, 16); // 256 x 128 x 256 blocks

fn hash(seed: u32, x: i32, y: i32, z: i32) -> f32 {
    noise_bits(seed, x as u32, y as u32, z as u32) as f32 / 65535.0
}

fn smooth(t: f32) -> f32 {
    t * t * (3.0 - 2.0 * t)
}

fn lerp(a: f32, b: f32, t: f32) -> f32 {
    a + (b - a) * t
}

fn value3(seed: u32, x: f32, y: f32, z: f32) -> f32 {
    let (x0, y0, z0) = (x.floor(), y.floor(), z.floor());
    let (tx, ty, tz) = (smooth(x - x0), smooth(y - y0), smooth(z - z0));
    let (ix, iy, iz) = (x0 as i32, y0 as i32, z0 as i32);
    let c = |dx, dy, dz| hash(seed, ix + dx, iy + dy, iz + dz);
    let x00 = lerp(c(0, 0, 0), c(1, 0, 0), tx);
    let x10 = lerp(c(0, 1, 0), c(1, 1, 0), tx);
    let x01 = lerp(c(0, 0, 1), c(1, 0, 1), tx);
    let x11 = lerp(c(0, 1, 1), c(1, 1, 1), tx);
    lerp(lerp(x00, x10, ty), lerp(x01, x11, ty), tz)
}

fn fbm(seed: u32, octaves: u32, x: f32, y: f32, z: f32) -> f32 {
    let (mut sum, mut amp, mut freq, mut norm) = (0.0, 1.0, 1.0, 0.0);
    for octave in 0..octaves {
        sum += amp * value3(seed.wrapping_add(octave), x * freq, y * freq, z * freq);
        norm += amp;
        amp *= 0.5;
        freq *= 2.0;
    }
    sum / norm
}

/// Terrain of so many sections, from a seed.
fn terrain(nx: usize, ny: usize, nz: usize, seed: u32) -> World {
    let w = World::new(nx, ny, nz);
    let [sx, sy, sz] = w.size_blocks();
    let mut heights = vec![0usize; sx * sz];
    let mut caves = vec![false; w.blocks.len()];
    for x in 0..sx {
        for z in 0..sz {
            let n = fbm(seed, 5, x as f32 / 96.0, 0.0, z as f32 / 96.0);
            let h = ((sy as f32) * (0.22 + 0.5 * n)) as usize;
            heights[x + sx * z] = h;
            for y in 3..=h.clamp(1, sy - 1) {
                caves[w.index(x, y, z)] =
                    fbm(seed ^ 0x9E37_79B9, 3, x as f32 / 28.0, y as f32 / 18.0, z as f32 / 28.0) > 0.62;
            }
        }
    }
    World::terrain(nx, ny, nz, &heights, &caves)
}

fn world_with(n: [usize; 3], blocks: &[([usize; 3], u16)]) -> World {
    let mut w = World::new(n[0], n[1], n[2]);
    for &([x, y, z], b) in blocks {
        w.set(x, y, z, b);
    }
    w
}

fn cpu_faces(w: &World, meshing: Meshing) -> Vec<Vec<Face>> {
    let rules = Rules::standard();
    (0..w.section_count())
        .map(|s| match meshing {
            Meshing::Plain => mesh_section(w, &rules, s),
            Meshing::Greedy => mesh_section_greedy(w, &rules, s),
        })
        .collect()
}

fn count(w: &World) -> usize {
    cpu_faces(w, Meshing::Plain).iter().map(Vec::len).sum()
}

#[test]
fn pack_round_trips() {
    let f = Face { pos: [15, 3, 9], dir: 5, w: 16, h: 7, state: 0xBEEF, quad: 42 };
    assert_eq!(Face::unpack(f.pack()), f);
    assert_eq!(Face::unit([0, 0, 0], 0, 1).pack(), [0, 1]);
}

#[test]
fn tiny_worlds_have_exact_face_counts() {
    let one = [1, 1, 1];
    assert_eq!(count(&world_with(one, &[])), 0);
    assert_eq!(count(&world_with(one, &[([3, 4, 5], STONE)])), 6);
    assert_eq!(count(&world_with(one, &[([3, 4, 5], STONE), ([4, 4, 5], DIRT)])), 10);
    // An L of three: 18 - 2 shared pairs * 2.
    assert_eq!(count(&world_with(one, &[([0, 0, 0], STONE), ([1, 0, 0], STONE), ([0, 1, 0], STONE)])), 14);

    let mut solid = World::new(1, 1, 1);
    solid.blocks.fill(STONE);
    assert_eq!(count(&solid), 6 * 256);

    // Two solid sections stacked: the shared boundary is hidden, which needs
    // the mesher to read its neighbour section's border.
    let mut two = World::new(1, 2, 1);
    two.blocks.fill(STONE);
    assert_eq!(count(&two), 2 * 6 * 256 - 2 * 256);

    // A block on each side of a section boundary, touching.
    let across = world_with([2, 1, 1], &[([15, 0, 0], STONE), ([16, 0, 0], STONE)]);
    assert_eq!(count(&across), 10);
}

#[test]
fn the_rule_table_decides_visibility() {
    let pair = |a, b| count(&world_with([1, 1, 1], &[([5, 5, 5], a), ([6, 5, 5], b)]));
    assert_eq!(pair(GLASS, GLASS), 10, "glass hides glass");
    assert_eq!(pair(STONE, GLASS), 11, "stone shows through glass, glass is hidden by stone");
    assert_eq!(pair(LEAVES, LEAVES), 12, "leaves show every face");
    assert_eq!(pair(STONE, LEAVES), 11);
}

#[test]
fn worst_case_sections() {
    let mut checker = World::new(1, 1, 1);
    for y in 0..16 {
        for z in 0..16 {
            for x in 0..16 {
                if (x + y + z) % 2 == 0 {
                    checker.set(x, y, z, STONE);
                }
            }
        }
    }
    assert_eq!(count(&checker), 2048 * 6);
    // Leaves show every face even against leaves: 4096 * 6, the true maximum
    // and the size of a worst-case slot.
    let mut leaves = World::new(1, 1, 1);
    leaves.blocks.fill(LEAVES);
    assert_eq!(count(&leaves), 4096 * 6);
}

#[test]
fn greedy_matches_cpu_and_covers_the_same_faces() {
    let w = terrain(BIG.0, BIG.1, BIG.2, 7);
    let greedy = cpu_faces(&w, Meshing::Greedy);
    let plain = cpu_faces(&w, Meshing::Plain);
    let total: usize = plain.iter().map(Vec::len).sum();
    assert!(total > 100_000, "the test world should be non-trivial, got {total}");
    for (s, (g, p)) in greedy.iter().zip(&plain).enumerate() {
        let mut cells: Vec<Face> = g.iter().flat_map(|f| f.cells()).collect();
        cells.sort();
        assert!(&cells == p, "section {s}: greedy rectangles cover different faces");
    }
    let mut solid = World::new(1, 1, 1);
    solid.blocks.fill(STONE);
    let g = cpu_faces(&solid, Meshing::Greedy);
    assert_eq!(g[0].len(), 6);
    assert!(g[0].iter().all(|f| f.w == 16 && f.h == 16));
}

/// An edit changes the meshes of the touched sections, and of no other.
#[test]
fn an_edit_leaves_the_other_meshes_alone() {
    let rules = Rules::standard();
    let mut w = terrain(4, 4, 4, 3);
    let mut kept = cpu_faces(&w, Meshing::Plain);
    let mut rng = 0x1234_5678u32;
    for _round in 0..40 {
        let mut touched = Vec::new();
        for _ in 0..8 {
            rng ^= rng << 13;
            rng ^= rng >> 17;
            rng ^= rng << 5;
            let (x, y, z) = ((rng % 64) as usize, ((rng >> 8) % 64) as usize, ((rng >> 16) % 64) as usize);
            let b = [AIR, STONE, GLASS, LEAVES][(rng >> 24) as usize % 4];
            w.set(x, y, z, b);
            touched.extend(w.sections_touching(x, y, z));
        }
        for &s in &touched {
            kept[s as usize] = mesh_section(&w, &rules, s as usize);
        }
        assert!(kept == cpu_faces(&w, Meshing::Plain));
    }
}

#[test]
fn a_layer_is_swept_into_rectangles() {
    let mut g = vec![0u16; 256];
    assert!(sweep_layer(&g).is_empty());
    for v in 2..5 {
        for u in 3..9 {
            g[u + 16 * v] = 7;
        }
    }
    assert_eq!(sweep_layer(&g), vec![Rect { at: 3 + 32, w: 6, h: 3 }]);
    g[3 + 16 * 4] = 8;
    assert_eq!(
        sweep_layer(&g),
        vec![Rect { at: 3 + 32, w: 6, h: 2 }, Rect { at: 3 + 64, w: 1, h: 1 }, Rect { at: 4 + 64, w: 5, h: 1 }]
    );
}

#[test]
fn the_allocator_starts_empty() {
    let w = World::new(2, 1, 1);
    let m = Mesher::new(&w, AllocMode::Worst, Meshing::Plain, 5);
    assert_eq!(m.face_capacity, 2 * 24576);
    assert_eq!(m.face_buffer_bytes(), 2 * 24576 * 8);
    assert_eq!(m.all_jobs(), vec![0, 1]);
    assert_eq!(m.params(2).job_count, 2);
    let m = Mesher::new(&w, AllocMode::Classes, Meshing::Greedy, 1000);
    assert_eq!(m.face_capacity, 1000);
    let (base, entries) = stack_bases(1000);
    assert_eq!(base, [0, 15, 22, 25, 26, 26, 26, 26, 26, 26]);
    assert_eq!((entries, m.free_entries), (26, 26));
    assert_eq!(m.alloc.free_base, base);
    assert_ne!(AllocMode::Exact.code(), AllocMode::Classes.code());
    assert_ne!(Meshing::Plain.kernel(), Meshing::Greedy.kernel());
    let used = AllocState { bump: 7, overflow: 3, ..m.alloc };
    assert_eq!(Mesher::clear_overflow(&used).overflow, 0);
    assert_eq!(Mesher::clear_overflow(&used).bump, 7);
    let (forgotten, meshes) = m.reset(&used);
    assert_eq!((forgotten.bump, forgotten.overflow, forgotten.retired), (0, 0, 0));
    assert_eq!((forgotten.capacity, forgotten.free_base), (used.capacity, used.free_base));
    assert_eq!((forgotten.free_top, forgotten.pad), ([0; 10], [0; 2]));
    assert_eq!(meshes, vec![SectionMesh::empty(); m.section_count]);
    let mut mesh = SectionMesh::empty();
    assert_eq!(mesh.offset, NONE);
    mesh.count = [1, 2, 0, 0, 0, 3];
    assert_eq!(mesh.total(), 6);
    let stats = Mesher::stats(&used, &vec![mesh]);
    assert_eq!((stats.bump, stats.overflow), (7, 3));
}

#[test]
fn faces_are_read_out_of_their_slots_in_order() {
    let w = world_with([1, 1, 1], &[([3, 4, 5], STONE)]);
    let mut want = cpu_faces(&w, Meshing::Plain)[0].clone();
    let mut by_dir = want.clone();
    want.sort();
    by_dir.sort_by_key(|f| f.dir);
    let mut buffer = vec![[0u32; 2]; 16];
    for (i, f) in by_dir.iter().enumerate() {
        buffer[2 + i] = f.pack();
    }
    let mut mesh = SectionMesh::empty();
    mesh.offset = 2;
    mesh.capacity = 6;
    mesh.count = [1; 6];
    assert_eq!(Mesher::read_faces(&vec![mesh], &buffer), Some(vec![want]));
    mesh.offset = 12;
    assert_eq!(Mesher::read_faces(&vec![mesh], &buffer), None, "past the end of the buffer");
}

#[test]
fn what_a_frame_needs() {
    let r = Renderer::new(4, 1000);
    let opts = DrawOptions::default();
    assert!(opts.drawable());
    assert_eq!(Renderer::range_words(opts).len(), 5);
    assert!(r.cull_groups() >= 1);
    assert!(r.last_count_word() < 3 * 64);
    let _ = r.cull_params(opts);
    let mut ring = FrameRing::new(256);
    let at: Vec<usize> = (0..4).map(|_| ring.advance()).collect();
    assert_eq!(ring.last(), at[3]);
    assert_eq!(at[0], at[3]);
    assert!(at[0] != at[1] && at[1] != at[2] && at[0] != at[2]);
    let quads = quad_indices();
    assert_eq!(quads.len() % 6, 0);
    assert!(chunk_capacity(1000, 4) >= 1000 / 64);
    assert!(chunk16_capacity(1000, 4) >= 1000 / 16);
    let mut bytes = Vec::new();
    for t in [10u64, 15, 20, 28, 30, 43] {
        bytes.extend(t.to_le_bytes());
    }
    assert_eq!(stage_ticks(&bytes), Some([5, 8, 13, 33]));
    bytes[..8].fill(0xFF);
    assert_eq!(stage_ticks(&bytes), None);
}

#[test]
fn two_halves_are_a_byte() {
    for b in 0..=255u8 {
        assert_eq!(join(high_of(b), low_of(b)), b);
    }
    assert_eq!(join(0xA, 0x5), 0xA5);
}

#[test]
fn a_picture_is_a_bmp() {
    let out = bmp_bytes(2, 2, &vec![[1, 2, 3, 0], [4, 5, 6, 0], [7, 8, 9, 0], [10, 11, 12, 0]]);
    assert_eq!(&out[..2], b"BM");
    assert_eq!(out.len(), 54 + 16);
    // Rows from the bottom, blue first, each filled up to four bytes.
    assert_eq!(&out[54..], &[9, 8, 7, 12, 11, 10, 0, 0, 3, 2, 1, 6, 5, 4, 0, 0]);
}

#[test]
fn faces_in_view_are_counted() {
    let mut mesh = SectionMesh::empty();
    mesh.count = [1, 2, 4, 8, 16, 32];
    let all = InView { inside: true, facing: [true, false, true, false, true, false] };
    let out = InView { inside: false, facing: [true; 6] };
    assert_eq!(visible_faces(&vec![mesh, mesh], &vec![all, out], true), 21);
    assert_eq!(visible_faces(&vec![mesh, mesh], &vec![all, out], false), 63);
}

#[test]
fn a_frame_draws_what_culling_kept() {
    let mut r = Renderer::new(100, 1 << 20);
    let draws = |opts: DrawOptions, r: &mut Renderer| {
        let plan = r.encode_frame(opts);
        assert_eq!(plan.cull.uniforms_at, plan.slot);
        assert_eq!(plan.cull.count_at, plan.slot + 128);
        assert_eq!((plan.cull.groups, plan.cull.threads), (2, 64));
        assert_eq!(plan.cull.params.section_count, 100);
        (plan.slot, plan.range[0], plan.cull.output, plan.draw)
    };
    let commands = DrawOptions::default();
    assert_eq!(
        draws(commands, &mut r),
        (
            0,
            0,
            CullOutput::Commands,
            DrawPass {
                pipeline: Pipeline::Indexed,
                uniforms_at: 0,
                chunks: false,
                declares_indices: true,
                draw: Draw::Counted { range_at: 128 },
            }
        )
    );
    let all = DrawOptions { indexed: false, compact: false, ..commands };
    let (_, _, _, pass) = draws(all, &mut r);
    assert_eq!((pass.pipeline, pass.draw), (Pipeline::List, Draw::Commands { count: 600 }));
    assert!(!pass.declares_indices);
    let chunks = DrawOptions { chunk_shift: 4, ..commands };
    let (slot, words, output, pass) = draws(chunks, &mut r);
    assert_eq!((slot, words, output.kernel()), (512, 96, "cull_chunks"));
    assert_eq!((pass.pipeline.vertex(), pass.chunks), ("terrain_vertex_chunk_indexed", true));
    assert_eq!(pass.draw, Draw::Chunks { indexed: true, args_at: 640 });
    let list = DrawOptions { indexed: false, chunk_shift: 2, ..commands };
    let (slot, words, _, pass) = draws(list, &mut r);
    assert_eq!((slot, words, pass.pipeline), (0, 24, Pipeline::ChunkList));
    assert_eq!(pass.draw, Draw::Chunks { indexed: false, args_at: 128 });
}

#[test]
fn a_mesher_says_what_it_runs() {
    let w = World::new(2, 1, 1);
    let m = Mesher::new(&w, AllocMode::Classes, Meshing::Plain, 1 << 16);
    let pass = m.encode(&vec![1]);
    assert_eq!((pass.params.job_count, pass.params.alloc_mode), (1, AllocMode::Classes.code()));
    assert_eq!((pass.release_groups, pass.mesh_groups), (1, 1));
    assert_eq!(m.encode(&vec![]).mesh_groups, 0);
    assert_eq!(
        m.encode_reset(),
        vec![
            Fill { meshes: true, at: 0, len: 64, byte: 0 },
            Fill { meshes: true, at: 0, len: 4, byte: 0xFF },
            Fill { meshes: true, at: 32, len: 4, byte: 0xFF },
            Fill { meshes: false, at: 0, len: 12, byte: 0 },
            Fill { meshes: false, at: 16, len: 40, byte: 0 },
        ]
    );
    let mut w = w;
    w.set(16, 0, 0, STONE);
    let (at, blocks) = Mesher::upload_section(&w, 1);
    assert_eq!((at, blocks.len(), blocks[0], blocks[1]), (4096, 4096, STONE, AIR));
}

/// The fills of a reset, run on bytes, leave what a reset does: every section empty, and of the
/// allocator its room and the bases of its stacks.
#[test]
fn an_encoded_reset_empties_every_section() {
    let w = World::new(2, 1, 2);
    let m = Mesher::new(&w, AllocMode::Classes, Meshing::Plain, 1 << 16);
    let used = AllocState { bump: 7, overflow: 3, retired: 2, free_top: [5; 10], ..m.alloc };
    let words = |a: &AllocState| -> Vec<u32> {
        let mut out = vec![a.bump, a.overflow, a.retired, a.capacity];
        out.extend(a.free_top.iter().map(|&t| t as u32));
        out.extend(a.free_base);
        out.extend(a.pad);
        out
    };
    let to_bytes = |words: &[u32]| -> Vec<u8> { words.iter().flat_map(|w| w.to_le_bytes()).collect() };
    let to_words = |bytes: &[u8]| -> Vec<u32> {
        bytes.chunks(4).map(|c| u32::from_le_bytes([c[0], c[1], c[2], c[3]])).collect()
    };
    let mut meshes: Vec<u8> = (0..m.section_count * 32).map(|i| i as u8).collect();
    let mut alloc = to_bytes(&words(&used));
    for f in m.encode_reset() {
        let on = if f.meshes { &mut meshes } else { &mut alloc };
        on[f.at..f.at + f.len].fill(f.byte);
    }
    let (forgotten, empty) = m.reset(&used);
    assert_eq!(to_words(&alloc), words(&forgotten));
    let got: Vec<SectionMesh> = to_words(&meshes)
        .chunks(8)
        .map(|c| SectionMesh { offset: c[0], capacity: c[1], count: [c[2], c[3], c[4], c[5], c[6], c[7]] })
        .collect();
    assert_eq!(got, empty);
    assert!(got.iter().all(|x| x.offset == NONE && x.total() == 0));
    assert_eq!(Mesher::read_faces(&got, &vec![]), Some(vec![vec![]; 4]));
    assert_eq!(Mesher::stats(&forgotten, &got).live_faces, 0);
}
