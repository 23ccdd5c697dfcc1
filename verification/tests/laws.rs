//! Kernels over integers, where no order of summing rounds: each is its plain definition exactly.
use loken::arith::Half;
use loken::blocks::BlockFormat;
use loken::drivers::matmul_q4k_repacked_tiled_prequant;
use loken::float::{vec_dot_f32, Single};
use loken::format::q2_k::BlockQ2K;
use loken::format::q3_k::BlockQ3K;
use loken::format::q4_0::BlockQ4_0;
use loken::format::q4_1::BlockQ4_1;
use loken::format::q4_k::BlockQ4K;
use loken::format::q5_0::BlockQ5_0;
use loken::format::q5_1::BlockQ5_1;
use loken::format::q5_k::BlockQ5K;
use loken::format::q6_k::BlockQ6K;
use loken::format::q8_0::BlockQ8_0;
use loken::format::q8_1::BlockQ8_1;
use loken::format::q8_k::BlockQ8K;
use loken::repack_q4k;
use loken::repack_q5k;
use loken::repack_q6k;
use loken::repack_q8_0_x8;
use loken::tile4x8::BlockQ8_0x4;
use loken::whole::Whole;

/// Bytes that look like nothing in particular.
struct Bytes(u64);

impl Bytes {
    fn next(&mut self) -> u8 {
        self.0 ^= self.0 << 13;
        self.0 ^= self.0 >> 7;
        self.0 ^= self.0 << 17;
        (self.0 >> 24) as u8
    }

    fn fill<const N: usize>(&mut self) -> [u8; N] {
        let mut a = [0u8; N];
        for v in a.iter_mut() {
            *v = self.next();
        }
        a
    }

    fn signed<const N: usize>(&mut self) -> [i8; N] {
        let mut a = [0i8; N];
        for v in a.iter_mut() {
            *v = self.next() as i8;
        }
        a
    }

    /// A scale, small enough that a product of two stays small.
    fn scale(&mut self) -> Half {
        Half { bits: 1 + (self.next() % 7) as u16 }
    }

    fn q8_0(&mut self) -> BlockQ8_0 {
        BlockQ8_0 { d: self.scale(), qs: self.signed() }
    }

    fn q8_1(&mut self) -> BlockQ8_1 {
        BlockQ8_1 { d: self.scale(), s: self.scale(), qs: self.signed() }
    }

    fn q8k(&mut self) -> BlockQ8K<Whole> {
        let qs: [i8; 256] = self.signed();
        let mut bsums = [0i16; 16];
        for (s, sum) in bsums.iter_mut().enumerate() {
            *sum = qs[16 * s..16 * s + 16].iter().map(|&q| q as i16).sum();
        }
        BlockQ8K { d: Whole { v: 1 + (self.next() % 5) as i32 }, qs, bsums }
    }

    fn q4k(&mut self) -> BlockQ4K {
        BlockQ4K { d: self.scale(), dmin: self.scale(), scales: self.fill(), qs: self.fill() }
    }

    fn q5k(&mut self) -> BlockQ5K {
        BlockQ5K {
            d: self.scale(),
            dmin: self.scale(),
            scales: self.fill(),
            qh: self.fill(),
            qs: self.fill(),
        }
    }

    fn q6k(&mut self) -> BlockQ6K {
        BlockQ6K { ql: self.fill(), qh: self.fill(), scales: self.signed(), d: self.scale() }
    }
}

/// A format's kernel and its plain definition, on runs of three blocks.
fn agrees<T: BlockFormat<Whole>>(
    name: &str,
    mut x: impl FnMut() -> T,
    mut y: impl FnMut() -> T::ActivationBlock,
) {
    let mut seen: Vec<i32> = Vec::new();
    for _ in 0..20 {
        let xs: Vec<T> = (0..3).map(|_| x()).collect();
        let ys: Vec<T::ActivationBlock> = (0..3).map(|_| y()).collect();
        let (fast, plain) = (T::dot(&xs, &ys), T::dot_scalar(&xs, &ys));
        assert_eq!(fast, plain, "{name}");
        seen.push(fast.v);
    }
    seen.sort();
    seen.dedup();
    assert!(seen.len() > 10, "{name}: the products are all alike");
}

#[test]
fn thirty_two_codes_sum_the_same_in_any_order() {
    let (mut a, mut b) = (Bytes(0x51), Bytes(0x77));
    agrees("q4_0", || BlockQ4_0 { d: a.scale(), qs: a.fill() }, || b.q8_0());
    agrees("q5_0", || BlockQ5_0 { d: a.scale(), qh: a.fill(), qs: a.fill() }, || b.q8_0());
    agrees("q8_0", || a.q8_0(), || b.q8_0());
    agrees("q8_1", || a.q8_1(), || b.q8_1());
    agrees("q4_1", || BlockQ4_1 { d: a.scale(), m: a.scale(), qs: a.fill() }, || b.q8_1());
    agrees(
        "q5_1",
        || BlockQ5_1 { d: a.scale(), m: a.scale(), qh: a.fill(), qs: a.fill() },
        || b.q8_1(),
    );
}

#[test]
fn super_blocks_sum_the_same_in_any_order() {
    let (mut a, mut b) = (Bytes(0x1234), Bytes(0x9876));
    agrees(
        "q2_K",
        || BlockQ2K { scales: a.fill(), qs: a.fill(), d: a.scale(), dmin: a.scale() },
        || b.q8k(),
    );
    agrees(
        "q3_K",
        || BlockQ3K { hmask: a.fill(), qs: a.fill(), scales: a.fill(), d: a.scale() },
        || b.q8k(),
    );
    agrees("q4_K", || a.q4k(), || b.q8k());
    agrees("q5_K", || a.q5k(), || b.q8k());
    agrees("q6_K", || a.q6k(), || b.q8k());
    agrees("q8_K", || a.q8k(), || b.q8k());
}

#[test]
fn interleaved_columns_give_what_the_rows_give() {
    let (mut a, mut b) = (Bytes(0xabc), Bytes(0xdef));
    let (n, nb, m) = (16usize, 3usize, 5usize);
    let acts: Vec<BlockQ8K<Whole>> = (0..m * nb).map(|_| b.q8k()).collect();
    let rows: Vec<BlockQ4K> = (0..n * nb).map(|_| a.q4k()).collect();
    let packed = repack_q4k::repack(&rows, n, nb);
    let mut out = vec![Whole { v: 0 }; m * n];
    matmul_q4k_repacked_tiled_prequant((m, nb * 256, n), &acts, &packed, &mut out).unwrap();
    for r in 0..m {
        for c in 0..n {
            let want = BlockQ4K::dot(&rows[c * nb..c * nb + nb], &acts[r * nb..r * nb + nb]);
            assert_eq!(out[r * n + c], want, "row {r} column {c}");
        }
    }
    let one = &acts[..nb];
    let v2 = repack_q4k::repack_v2(&rows, n, nb);
    for g in 0..n / 8 {
        let (p, q) = (&packed[g * nb..g * nb + nb], &v2[g * nb..g * nb + nb]);
        let mut stepped = [Whole { v: 0 }; 8];
        let mut plain = [Whole { v: 0 }; 8];
        let mut second = [Whole { v: 0 }; 8];
        repack_q4k::gemv_group_scalar(p, one, nb, &mut stepped);
        repack_q4k::gemv_group_avx2_plain(p, one, nb, &mut plain);
        repack_q4k::gemv_group_avx2_v2(q, one, nb, &mut second);
        for j in 0..8 {
            let c = 8 * g + j;
            let want = BlockQ4K::dot(&rows[c * nb..c * nb + nb], one);
            assert_eq!(stepped[j], want);
            assert_eq!(plain[j], want);
            assert_eq!(second[j], want);
        }
    }
}

#[test]
fn five_and_six_bit_columns_give_what_the_rows_give() {
    let (mut a, mut b) = (Bytes(0x321), Bytes(0x654));
    let (n, nb) = (8usize, 4usize);
    let acts: Vec<BlockQ8K<Whole>> = (0..nb).map(|_| b.q8k()).collect();
    let fives: Vec<BlockQ5K> = (0..n * nb).map(|_| a.q5k()).collect();
    let sixes: Vec<BlockQ6K> = (0..n * nb).map(|_| a.q6k()).collect();
    let mut five = [Whole { v: 0 }; 8];
    let mut six = [Whole { v: 0 }; 8];
    repack_q5k::gemv_group_scalar(&repack_q5k::repack(&fives, n, nb), &acts, nb, &mut five);
    repack_q6k::gemv_group_scalar(&repack_q6k::repack(&sixes, n, nb), &acts, nb, &mut six);
    for j in 0..8 {
        assert_eq!(five[j], BlockQ5K::dot(&fives[j * nb..j * nb + nb], &acts));
        assert_eq!(six[j], BlockQ6K::dot(&sixes[j * nb..j * nb + nb], &acts));
    }
}

#[test]
fn a_tile_gives_what_its_rows_and_columns_give() {
    let (mut a, mut b) = (Bytes(0x77aa), Bytes(0x88bb));
    let nb = 3usize;
    let rows: Vec<BlockQ8_0> = (0..8 * nb).map(|_| a.q8_0()).collect();
    let packed = repack_q8_0_x8::repack(&rows, 8, nb);
    let lhs: Vec<BlockQ8_0> = (0..4 * nb).map(|_| b.q8_0()).collect();
    let acts: Vec<BlockQ8_0x4> = (0..nb)
        .map(|l| {
            let mut t = BlockQ8_0x4 { d: [Half { bits: 0 }; 4], qs: [0; 128] };
            for m in 0..4 {
                let y = &lhs[m * nb + l];
                t.d[m] = y.d;
                for e in 0..32 {
                    t.qs[(e / 8) * 32 + m * 8 + e % 8] = y.qs[e];
                }
            }
            t
        })
        .collect();
    let mut parts = [Whole { v: 0 }; 32];
    let mut whole = [Whole { v: 0 }; 32];
    repack_q8_0_x8::gemm_scalar(&acts, &packed, nb, &mut parts);
    repack_q8_0_x8::gemm_group_avx2(&acts, &packed, nb, &mut whole);
    for m in 0..4 {
        for j in 0..8 {
            let want: Whole =
                BlockQ8_0::dot(&rows[j * nb..j * nb + nb], &lhs[m * nb..m * nb + nb]);
            assert_eq!(parts[m * 8 + j], want);
            assert_eq!(whole[m * 8 + j], want);
        }
    }
}

#[test]
fn strides_and_tail_sum_every_product() {
    let mut a = Bytes(0x5a5a);
    for k in [0usize, 1, 31, 32, 33, 100] {
        let xs: Vec<Single<Whole>> =
            (0..k).map(|_| Single { v: Whole { v: a.next() as i32 - 128 } }).collect();
        let ys: Vec<Single<Whole>> =
            (0..k).map(|_| Single { v: Whole { v: a.next() as i32 - 128 } }).collect();
        let want: i32 = xs.iter().zip(&ys).map(|(x, y)| x.v.v * y.v.v).sum();
        assert_eq!(vec_dot_f32(&xs, &ys).v, want, "{k} values");
    }
}
