use vstd::prelude::*;
use rayon::slice::ParallelSliceMut;
use std::collections::HashMap;
use crate::types::{morton_code, morton_encode_coords};

verus! {

// ---------------------------------------------------------------------------
// Packed grid keys: three 21-bit fields, x highest.
// ---------------------------------------------------------------------------

/// The 21-bit field a grid coordinate is stored in: offset by `2^20`, wrapped
/// to 21 bits.
pub open spec fn key_field(v: i32) -> u64 {
    ((v as i64 + 0x10_0000) as u64) & 0x1f_ffff
}

/// The key of grid cell `(gx, gy, gz)`.
pub open spec fn packed(gx: i32, gy: i32, gz: i32) -> u64 {
    (key_field(gx) << 42u64) | (key_field(gy) << 21u64) | key_field(gz)
}

/// The coordinate stored in a 21-bit field.
pub open spec fn field_value(f: u64) -> i32 {
    ((f & 0x1f_ffff) as i64 - 0x10_0000) as i32
}

/// The grid cell a key stands for.
pub open spec fn unpacked(k: u64) -> (i32, i32, i32) {
    (field_value(k >> 42u64), field_value(k >> 21u64), field_value(k))
}

/// The key of grid cell `(gx, gy, gz)`: each coordinate offset by `2^20` and
/// kept to 21 bits, x in the highest field.
pub fn pack_coords(gx: i32, gy: i32, gz: i32) -> (k: u64)
    ensures
        k == packed(gx, gy, gz),
{
    let ux = ((gx as i64) + 0x10_0000) as u64 & 0x1f_ffff;
    let uy = ((gy as i64) + 0x10_0000) as u64 & 0x1f_ffff;
    let uz = ((gz as i64) + 0x10_0000) as u64 & 0x1f_ffff;
    (ux << 42u64) | (uy << 21u64) | uz
}

/// The grid cell of key `k`.
pub fn unpack_coords(k: u64) -> (c: (i32, i32, i32))
    ensures
        c == unpacked(k),
{
    let fx = (k >> 42u64) & 0x1f_ffff;
    let fy = (k >> 21u64) & 0x1f_ffff;
    let fz = k & 0x1f_ffff;
    assert(fx <= 0x1f_ffff && fy <= 0x1f_ffff && fz <= 0x1f_ffff) by (bit_vector)
        requires
            fx == (k >> 42u64) & 0x1f_ffff,
            fy == (k >> 21u64) & 0x1f_ffff,
            fz == k & 0x1f_ffff,
    ;
    let gx = ((fx as i64) - 0x10_0000) as i32;
    let gy = ((fy as i64) - 0x10_0000) as i32;
    let gz = ((fz as i64) - 0x10_0000) as i32;
    (gx, gy, gz)
}

pub open spec fn in_key_range(v: i32) -> bool {
    -0x10_0000 <= v < 0x10_0000
}

/// Unpacking a packed cell gives the cell back, for coordinates within
/// `2^20` of the origin.
pub proof fn lemma_unpack_pack(gx: i32, gy: i32, gz: i32)
    requires
        in_key_range(gx),
        in_key_range(gy),
        in_key_range(gz),
    ensures
        unpacked(packed(gx, gy, gz)) == (gx, gy, gz),
{
    assert(field_value(packed(gx, gy, gz) >> 42u64) == gx && field_value(packed(gx, gy, gz) >> 21u64) == gy
        && field_value(packed(gx, gy, gz)) == gz) by (bit_vector)
        requires
            -0x10_0000 <= gx < 0x10_0000,
            -0x10_0000 <= gy < 0x10_0000,
            -0x10_0000 <= gz < 0x10_0000,
    ;
}

/// Packing an unpacked key gives the key back, for keys of 63 bits.
pub proof fn lemma_pack_unpack(k: u64)
    requires
        k < 0x8000_0000_0000_0000,
    ensures
        packed(unpacked(k).0, unpacked(k).1, unpacked(k).2) == k,
{
    assert(packed(field_value(k >> 42u64), field_value(k >> 21u64), field_value(k)) == k) by (bit_vector)
        requires
            k < 0x8000_0000_0000_0000,
    ;
}


// ---------------------------------------------------------------------------
// Surface samples: a grid key and the key of the sampled colour.
// ---------------------------------------------------------------------------

/// A surface sample: the key of its grid cell and the key of its colour
/// (8 bits per channel, red highest).
pub type Sample = (u64, u32);

/// Sorts keyed items by their key, the first field, with rayon's parallel
/// unstable sort (`ParallelSliceMut::par_sort_unstable_by_key`). What is
/// claimed of it: the same items come out, ordered by key; items with equal
/// keys come out in an order that is not stated.
#[verifier::external_body]
fn par_sort_by_key<T: Send>(items: &mut Vec<(u64, T)>)
    ensures
        final(items)@.to_multiset() == old(items)@.to_multiset(),
        forall|i: int, j: int| 0 <= i <= j < final(items)@.len() ==> final(items)@[i].0 <= final(items)@[j].0,
{
    items.par_sort_unstable_by_key(|e| e.0);
}

/// Orders the samples by cell and keeps one sample per cell: the result's
/// keys strictly increase, every result sample is an input sample, and every
/// input cell keeps a sample. Which of the samples of one cell is kept
/// depends on the parallel sort.
pub fn merge_samples(samples: &mut Vec<Sample>)
    ensures
        forall|i: int, j: int| 0 <= i < j < final(samples)@.len() ==> final(samples)@[i].0 < final(samples)@[j].0,
        forall|i: int| 0 <= i < final(samples)@.len() ==> old(samples)@.contains(#[trigger] final(samples)@[i]),
        forall|j: int| 0 <= j < old(samples)@.len() ==> exists|i: int|
            0 <= i < final(samples)@.len() && (#[trigger] final(samples)@[i]).0 == (#[trigger] old(samples)@[j]).0,
{
    broadcast use vstd::multiset::group_multiset_axioms, vstd::seq_lib::group_to_multiset_ensures;
    let ghost input = samples@;
    par_sort_by_key(samples);
    let ghost sorted = samples@;
    let mut kept: Vec<Sample> = Vec::new();
    let ghost mut pos: Seq<int> = Seq::empty();
    let mut i: usize = 0;
    while i < samples.len()
        invariant
            i <= sorted.len(),
            samples@ == sorted,
            forall|a: int, b: int| 0 <= a <= b < sorted.len() ==> sorted[a].0 <= sorted[b].0,
            forall|a: int, b: int| 0 <= a < b < kept@.len() ==> kept@[a].0 < kept@[b].0,
            forall|a: int| 0 <= a < kept@.len() ==> sorted.contains(#[trigger] kept@[a]),
            i > 0 ==> kept@.len() > 0 && kept@.last().0 == sorted[i - 1].0,
            i == 0 ==> kept@.len() == 0,
            pos.len() == i,
            forall|m: int| 0 <= m < i ==> 0 <= #[trigger] pos[m] < kept@.len() && kept@[pos[m]].0 == sorted[m].0,
        decreases sorted.len() - i,
    {
        let s = samples[i];
        if i == 0 || s.0 != samples[i - 1].0 {
            proof {
                if i > 0 {
                    assert(sorted[i - 1].0 <= sorted[i as int].0);
                }
            }
            let ghost old_kept = kept@;
            kept.push(s);
            proof {
                assert(sorted.contains(sorted[i as int]));
                assert forall|a: int| 0 <= a < old_kept.len() implies kept@[a] == #[trigger] old_kept[a] by {}
                pos = pos.push(old_kept.len() as int);
            }
        } else {
            proof {
                pos = pos.push(kept@.len() - 1);
            }
        }
        i = i + 1;
    }
    *samples = kept;
    proof {
        assert forall|a: int| 0 <= a < samples@.len() implies input.contains(#[trigger] samples@[a]) by {
            assert(sorted.contains(samples@[a]));
            assert(sorted.to_multiset().count(samples@[a]) > 0);
        }
        assert forall|j: int| 0 <= j < input.len() implies exists|a: int|
            0 <= a < samples@.len() && (#[trigger] samples@[a]).0 == (#[trigger] input[j]).0 by {
            assert(input.contains(input[j]));
            assert(input.to_multiset().count(input[j]) > 0);
            assert(sorted.contains(input[j]));
            let m = choose|m: int| 0 <= m < sorted.len() && sorted[m] == input[j];
            assert(samples@[pos[m]].0 == sorted[m].0);
        }
    }
}

// ---------------------------------------------------------------------------
// Palette: colour keys to material ids.
// ---------------------------------------------------------------------------

/// The last position of `key` in `p`, or -1.
pub open spec fn last_index(p: Seq<u32>, key: u32) -> int
    decreases p.len(),
{
    if p.len() == 0 {
        -1
    } else if p.last() == key {
        p.len() - 1
    } else {
        last_index(p.drop_last(), key)
    }
}

/// The palette after meeting the first `k` colours: each colour not in it yet
/// is appended while the palette has fewer than `size` entries.
pub open spec fn grown_palette(pal: Seq<u32>, colors: Seq<u32>, size: nat, k: nat) -> Seq<u32>
    decreases k,
{
    if k == 0 {
        pal
    } else {
        let p = grown_palette(pal, colors, size, (k - 1) as nat);
        if p.contains(colors[k - 1]) || p.len() >= size {
            p
        } else {
            p.push(colors[k - 1])
        }
    }
}

/// The material of a colour under a palette: one more than its last
/// position, or 1 when the palette lacks it.
pub open spec fn material_of(p: Seq<u32>, key: u32) -> u16 {
    if p.contains(key) {
        (last_index(p, key) + 1) as u16
    } else {
        1
    }
}

proof fn lemma_last_index(p: Seq<u32>, key: u32)
    ensures
        -1 <= last_index(p, key) < p.len(),
        p.contains(key) <==> last_index(p, key) >= 0,
        last_index(p, key) >= 0 ==> p[last_index(p, key)] == key,
    decreases p.len(),
{
    if p.len() > 0 {
        lemma_last_index(p.drop_last(), key);
        if p.last() != key {
            if p.contains(key) {
                let j = choose|j: int| 0 <= j < p.len() && p[j] == key;
                assert(p.drop_last()[j] == key);
            }
            if p.drop_last().contains(key) {
                let j = choose|j: int| 0 <= j < p.drop_last().len() && p.drop_last()[j] == key;
                assert(p[j] == key);
            }
        } else {
            assert(p[p.len() - 1] == key);
        }
    }
}

/// The material ids of the sampled colours, growing the palette with colours
/// it lacks while it has room for them (`palette_size` entries). A colour
/// gets one more than its last position in the palette as it stands after
/// meeting it, or 1 once the palette is full without it.
pub fn assign_materials(palette: &mut Vec<u32>, palette_size: usize, colors: &Vec<u32>) -> (ids: Vec<u16>)
    requires
        old(palette)@.len() <= 0xfffe,
        palette_size <= 0xfffe,
    ensures
        final(palette)@ == grown_palette(old(palette)@, colors@, palette_size as nat, colors@.len()),
        ids@.len() == colors@.len(),
        forall|i: int| 0 <= i < ids@.len() ==> #[trigger] ids@[i] == material_of(
            grown_palette(old(palette)@, colors@, palette_size as nat, (i + 1) as nat), colors@[i]),
        forall|i: int| 0 <= i < ids@.len() ==> 1 <= #[trigger] ids@[i] <= 0xfffe,
{
    broadcast use vstd::std_specs::hash::group_hash_axioms;
    let ghost pal0 = palette@;
    let mut cache: HashMap<u32, u16> = HashMap::new();
    let mut i: usize = 0;
    while i < palette.len()
        invariant
            i <= palette@.len(),
            palette@ == pal0,
            pal0.len() <= 0xfffe,
            forall|key: u32| #[trigger] cache@.contains_key(key) == pal0.take(i as int).contains(key),
            forall|key: u32| cache@.contains_key(key) ==> #[trigger] cache@[key] == last_index(pal0.take(i as int), key) + 1,
        decreases pal0.len() - i,
    {
        let key = palette[i];
        cache.insert(key, (i + 1) as u16);
        proof {
            let p1 = pal0.take(i + 1);
            assert(p1.drop_last() =~= pal0.take(i as int));
            assert forall|k: u32| #[trigger] cache@.contains_key(k) == p1.contains(k) by {
                if pal0.take(i as int).contains(k) {
                    let j = choose|j: int| 0 <= j < i && pal0.take(i as int)[j] == k;
                    assert(p1[j] == k);
                }
                if p1.contains(k) && k != key {
                    let j = choose|j: int| 0 <= j < i + 1 && p1[j] == k;
                    assert(pal0.take(i as int)[j] == k);
                }
                if k == key {
                    assert(p1[i as int] == k);
                }
            }
        }
        i = i + 1;
    }
    assert(pal0.take(pal0.len() as int) =~= pal0);
    let mut ids: Vec<u16> = Vec::new();
    let mut c: usize = 0;
    while c < colors.len()
        invariant
            c <= colors@.len(),
            palette_size <= 0xfffe,
            palette@ == grown_palette(pal0, colors@, palette_size as nat, c as nat),
            palette@.len() <= 0xfffe,
            forall|key: u32| #[trigger] cache@.contains_key(key) == palette@.contains(key),
            forall|key: u32| cache@.contains_key(key) ==> #[trigger] cache@[key] == last_index(palette@, key) + 1,
            ids@.len() == c,
            forall|j: int| 0 <= j < c ==> #[trigger] ids@[j] == material_of(
                grown_palette(pal0, colors@, palette_size as nat, (j + 1) as nat), colors@[j]),
            forall|j: int| 0 <= j < c ==> 1 <= #[trigger] ids@[j] <= 0xfffe,
        decreases colors@.len() - c,
    {
        let key = colors[c];
        let ghost before = palette@;
        proof {
            lemma_last_index(before, key);
        }
        let id: u16 = match cache.get(&key) {
            Some(found) => *found,
            None => {
                if palette.len() < palette_size {
                    palette.push(key);
                    let new_id = palette.len() as u16;
                    cache.insert(key, new_id);
                    proof {
                        let after = palette@;
                        assert(after.drop_last() =~= before);
                        assert forall|k: u32| #[trigger] cache@.contains_key(k) == after.contains(k) by {
                            if before.contains(k) {
                                let j = choose|j: int| 0 <= j < before.len() && before[j] == k;
                                assert(after[j] == k);
                            }
                            if after.contains(k) && k != key {
                                let j = choose|j: int| 0 <= j < after.len() && after[j] == k;
                                assert(before[j] == k);
                            }
                            if k == key {
                                assert(after[after.len() - 1] == k);
                            }
                        }
                    }
                    new_id
                } else {
                    1
                }
            },
        };
        ids.push(id);
        proof {
            let g = grown_palette(pal0, colors@, palette_size as nat, (c + 1) as nat);
            assert(g == palette@);
            lemma_last_index(g, key);
            assert(colors@[c as int] == key);
        }
        c = c + 1;
    }
    ids
}


// ---------------------------------------------------------------------------
// The voxels of an imported model.
// ---------------------------------------------------------------------------

/// A voxel of an imported model: its grid cell and material.
pub type GridVoxel = (i32, i32, i32, u16);

pub open spec fn voxel_morton(v: GridVoxel) -> u64 {
    morton_code(v.0, v.1, v.2)
}

/// The cell lies where its Morton code can be computed.
pub open spec fn morton_ok(v: GridVoxel) -> bool {
    v.0 + 0x10_0000 <= i32::MAX && v.1 + 0x10_0000 <= i32::MAX && v.2 + 0x10_0000 <= i32::MAX
}

/// The voxels of `b` keyed by their Morton codes, position by position.
pub open spec fn keyed_by_morton(a: Seq<(u64, GridVoxel)>, b: Seq<GridVoxel>) -> bool {
    &&& a.len() == b.len()
    &&& forall|i: int| 0 <= i < a.len() ==> #[trigger] a[i] == (voxel_morton(b[i]), b[i])
}

/// Keying voxels by their Morton codes keeps how often each occurs.
proof fn lemma_keyed_count(a: Seq<(u64, GridVoxel)>, b: Seq<GridVoxel>, v: GridVoxel)
    requires
        keyed_by_morton(a, b),
    ensures
        b.to_multiset().count(v) == a.to_multiset().count((voxel_morton(v), v)),
    decreases b.len(),
{
    broadcast use vstd::multiset::group_multiset_axioms, vstd::seq_lib::group_to_multiset_ensures;
    if b.len() > 0 {
        let a0 = a.drop_last();
        let b0 = b.drop_last();
        assert(keyed_by_morton(a0, b0)) by {
            assert forall|i: int| 0 <= i < a0.len() implies #[trigger] a0[i] == (voxel_morton(b0[i]), b0[i]) by {
                assert(a[i] == (voxel_morton(b[i]), b[i]));
            }
        }
        lemma_keyed_count(a0, b0, v);
        assert(a0.push(a.last()) =~= a);
        assert(b0.push(b.last()) =~= b);
        assert(a.last() == (voxel_morton(b.last()), b.last()));
    }
}

/// The last step of an import: refuses a model of more than
/// `max_nodes_allowed` voxels (answering how many it has), else orders its
/// voxels along the Morton curve.
pub fn finish_voxels(voxels: Vec<GridVoxel>, max_nodes_allowed: usize) -> (r: Result<Vec<GridVoxel>, usize>)
    requires
        forall|i: int| 0 <= i < voxels@.len() ==> morton_ok(#[trigger] voxels@[i]),
    ensures
        match r {
            Ok(sorted) => {
                &&& voxels@.len() <= max_nodes_allowed
                &&& sorted@.to_multiset() == voxels@.to_multiset()
                &&& forall|i: int, j: int| 0 <= i <= j < sorted@.len()
                    ==> voxel_morton(sorted@[i]) <= voxel_morton(sorted@[j])
            },
            Err(count) => voxels@.len() > max_nodes_allowed && count == voxels@.len(),
        },
{
    if voxels.len() > max_nodes_allowed {
        return Err(voxels.len());
    }
    broadcast use vstd::multiset::group_multiset_axioms, vstd::seq_lib::group_to_multiset_ensures;
    let mut keyed: Vec<(u64, GridVoxel)> = Vec::with_capacity(voxels.len());
    let mut i: usize = 0;
    while i < voxels.len()
        invariant
            i <= voxels@.len(),
            forall|k: int| 0 <= k < voxels@.len() ==> morton_ok(#[trigger] voxels@[k]),
            keyed_by_morton(keyed@, voxels@.take(i as int)),
        decreases voxels@.len() - i,
    {
        let v = voxels[i];
        let key = morton_encode_coords(v.0, v.1, v.2);
        keyed.push((key, v));
        i = i + 1;
        proof {
            let t = voxels@.take(i as int);
            assert forall|k: int| 0 <= k < keyed@.len() implies #[trigger] keyed@[k] == (voxel_morton(t[k]), t[k]) by {
                assert(t[k] == voxels@[k]);
            }
        }
    }
    let ghost unsorted = keyed@;
    assert(voxels@.take(voxels@.len() as int) =~= voxels@);
    par_sort_by_key(&mut keyed);
    let ghost by_key = keyed@;
    assert forall|k: int| 0 <= k < by_key.len() implies (#[trigger] by_key[k]).0 == voxel_morton(by_key[k].1) by {
        assert(by_key.to_multiset().count(by_key[k]) > 0);
        assert(unsorted.to_multiset().count(by_key[k]) > 0);
        let j = choose|j: int| 0 <= j < unsorted.len() && unsorted[j] == by_key[k];
        assert(unsorted[j] == (voxel_morton(voxels@[j]), voxels@[j]));
    }
    let mut sorted: Vec<GridVoxel> = Vec::with_capacity(keyed.len());
    let mut j: usize = 0;
    while j < keyed.len()
        invariant
            j <= by_key.len(),
            keyed@ == by_key,
            forall|k: int| 0 <= k < by_key.len() ==> (#[trigger] by_key[k]).0 == voxel_morton(by_key[k].1),
            keyed_by_morton(by_key.take(j as int), sorted@),
        decreases by_key.len() - j,
    {
        sorted.push(keyed[j].1);
        j = j + 1;
        proof {
            let t = by_key.take(j as int);
            assert forall|k: int| 0 <= k < t.len() implies #[trigger] t[k] == (voxel_morton(sorted@[k]), sorted@[k]) by {
                assert(t[k] == by_key[k]);
            }
        }
    }
    proof {
        assert(by_key.take(by_key.len() as int) =~= by_key);
        assert forall|v: GridVoxel| #[trigger] sorted@.to_multiset().count(v) == voxels@.to_multiset().count(v) by {
            lemma_keyed_count(by_key, sorted@, v);
            lemma_keyed_count(unsorted, voxels@, v);
        }
        assert(sorted@.to_multiset() =~= voxels@.to_multiset());
        assert forall|a: int, b: int| 0 <= a <= b < sorted@.len()
            implies voxel_morton(sorted@[a]) <= voxel_morton(sorted@[b]) by {
            assert(by_key[a] == (voxel_morton(sorted@[a]), sorted@[a]));
            assert(by_key[b] == (voxel_morton(sorted@[b]), sorted@[b]));
        }
    }
    Ok(sorted)
}

} // verus!
