//! Squaring in the field, and why every nonzero element has an inverse.
use vstd::prelude::*;

use crate::field::{
    fadd, fmul, fone, fzero, monomial, xtime, F128, lemma_fadd_assoc, lemma_fadd_self,
    lemma_fadd_zero, lemma_fmul_assoc, lemma_fmul_comm, lemma_fmul_distr, lemma_fmul_one,
    lemma_fmul_x, lemma_fmul_zero, lemma_induct_on_monomials, linear_map,
};

verus! {

/// The low 32 bits of `w`, spread to the even bit positions.
spec fn spread(w: u64) -> u64 {
    let a = (w | (w << 16)) & 0x0000ffff0000ffff;
    let b = (a | (a << 8)) & 0x00ff00ff00ff00ff;
    let c = (b | (b << 4)) & 0x0f0f0f0f0f0f0f0f;
    let d = (c | (c << 2)) & 0x3333333333333333;
    (d | (d << 1)) & 0x5555555555555555
}

/// The low word of the square of `lo + x^64 hi`.
spec fn square_lo(lo: u64, hi: u64) -> u64 {
    let p = spread(lo & 0xffffffff);
    let r = spread(hi & 0xffffffff);
    let s = spread(hi >> 32);
    let over = (s >> 63) ^ (s >> 62) ^ (s >> 57);
    p ^ r ^ (r << 1) ^ (r << 2) ^ (r << 7) ^ over ^ (over << 1) ^ (over << 2) ^ (over << 7)
}

/// The high word of the square of `lo + x^64 hi`.
spec fn square_hi(lo: u64, hi: u64) -> u64 {
    let q = spread(lo >> 32);
    let r = spread(hi & 0xffffffff);
    let s = spread(hi >> 32);
    q ^ s ^ (s << 1) ^ (s << 2) ^ (s << 7) ^ (r >> 63) ^ (r >> 62) ^ (r >> 57)
}

/// The square as a map on the two words.
spec fn square(a: F128) -> F128 {
    F128 { lo: square_lo(a.lo, a.hi), hi: square_hi(a.lo, a.hi) }
}

proof fn lemma_square_words(p: u64, q: u64, r: u64, s: u64)
    by (bit_vector)
    ensures
        square_lo(p ^ q, r ^ s) == square_lo(p, r) ^ square_lo(q, s),
        square_hi(p ^ q, r ^ s) == square_hi(p, r) ^ square_hi(q, s),
        square_lo(p, r) == p && square_hi(p, r) == r ==> r == 0 && p <= 1,
        square_lo(1, 0) == 1,
        square_hi(1, 0) == 0,
        // Multiplying by x before squaring multiplies the square by x twice.
        ({
            let lo = (p << 1) ^ ((r >> 63) * 0x87) as u64;
            let hi = (r << 1) | (p >> 63);
            let a = square_lo(p, r);
            let b = square_hi(p, r);
            let c = (a << 1) ^ ((b >> 63) * 0x87) as u64;
            let d = (b << 1) | (a >> 63);
            &&& square_lo(lo, hi) == (c << 1) ^ ((d >> 63) * 0x87) as u64
            &&& square_hi(lo, hi) == (d << 1) | (c >> 63)
        }),
{
}

/// The words of `x^(2^k)` for `k` up to 128, where they return to `x`.
proof fn lemma_square_orbit()
    by (bit_vector)
    ensures
        square_lo(0x0000000000000002, 0x0000000000000000) == 0x0000000000000004,
        square_hi(0x0000000000000002, 0x0000000000000000) == 0x0000000000000000,
        square_lo(0x0000000000000004, 0x0000000000000000) == 0x0000000000000010,
        square_hi(0x0000000000000004, 0x0000000000000000) == 0x0000000000000000,
        square_lo(0x0000000000000010, 0x0000000000000000) == 0x0000000000000100,
        square_hi(0x0000000000000010, 0x0000000000000000) == 0x0000000000000000,
        square_lo(0x0000000000000100, 0x0000000000000000) == 0x0000000000010000,
        square_hi(0x0000000000000100, 0x0000000000000000) == 0x0000000000000000,
        square_lo(0x0000000000010000, 0x0000000000000000) == 0x0000000100000000,
        square_hi(0x0000000000010000, 0x0000000000000000) == 0x0000000000000000,
        square_lo(0x0000000100000000, 0x0000000000000000) == 0x0000000000000000,
        square_hi(0x0000000100000000, 0x0000000000000000) == 0x0000000000000001,
        square_lo(0x0000000000000000, 0x0000000000000001) == 0x0000000000000087,
        square_hi(0x0000000000000000, 0x0000000000000001) == 0x0000000000000000,
        square_lo(0x0000000000000087, 0x0000000000000000) == 0x0000000000004015,
        square_hi(0x0000000000000087, 0x0000000000000000) == 0x0000000000000000,
        square_lo(0x0000000000004015, 0x0000000000000000) == 0x0000000010000111,
        square_hi(0x0000000000004015, 0x0000000000000000) == 0x0000000000000000,
        square_lo(0x0000000010000111, 0x0000000000000000) == 0x0100000000010101,
        square_hi(0x0000000010000111, 0x0000000000000000) == 0x0000000000000000,
        square_lo(0x0100000000010101, 0x0000000000000000) == 0x0000000100010001,
        square_hi(0x0100000000010101, 0x0000000000000000) == 0x0001000000000000,
        square_lo(0x0000000100010001, 0x0001000000000000) == 0x0000000100000001,
        square_hi(0x0000000100010001, 0x0001000000000000) == 0x0000008700000001,
        square_lo(0x0000000100000001, 0x0000008700000001) == 0x0000000000000086,
        square_hi(0x0000000100000001, 0x0000008700000001) == 0x000000000021caea,
        square_lo(0x0000000000000086, 0x000000000021caea) == 0x00021cae93f7cfc8,
        square_hi(0x0000000000000086, 0x000000000021caea) == 0x0000000000000000,
        square_lo(0x00021cae93f7cfc8, 0x0000000000000000) == 0x4105551550555040,
        square_hi(0x00021cae93f7cfc8, 0x0000000000000000) == 0x0000000401504454,
        square_lo(0x4105551550555040, 0x0000000401504454) == 0x118fe6196978ef70,
        square_hi(0x4105551550555040, 0x0000000401504454) == 0x1001001111110961,
        square_lo(0x118fe6196978ef70, 0x1001001111110961) == 0x93c692c775187987,
        square_hi(0x118fe6196978ef70, 0x1001001111110961) == 0x860140d2541486c6,
        square_lo(0x93c692c775187987, 0x860140d2541486c6) == 0xea618e11df04ea1e,
        square_hi(0x93c692c775187987, 0x860140d2541486c6) == 0x8b69509b312d6501,
        square_lo(0xea618e11df04ea1e, 0x8b69509b312d6501) == 0xcad0352d30b311b4,
        square_hi(0xea618e11df04ea1e, 0x8b69509b312d6501) == 0xb715594eb7756558,
        square_lo(0xcad0352d30b311b4, 0xb715594eb7756558) == 0x54e1a6f865fe82b9,
        square_hi(0xcad0352d30b311b4, 0xb715594eb7756558) == 0x01afdeffd35e5fde,
        square_lo(0x54e1a6f865fe82b9, 0x01afdeffd35e5fde) == 0x218289f09c0659ed,
        square_hi(0x54e1a6f865fe82b9, 0x01afdeffd35e5fde) == 0x11b4a30358935542,
        square_lo(0x218289f09c0659ed, 0x11b4a30358935542) == 0x97b14587eebe264d,
        square_hi(0x218289f09c0659ed, 0x11b4a30358935542) == 0x83a513579eda5793,
        square_lo(0x97b14587eebe264d, 0x83a513579eda5793) == 0x38d15180f9de45ad,
        square_hi(0x97b14587eebe264d, 0x83a513579eda5793) == 0x83ad91f69582bddf,
        square_lo(0x38d15180f9de45ad, 0x83ad91f69582bddf) == 0x1a97936b620f481d,
        square_hi(0x38d15180f9de45ad, 0x83ad91f69582bddf) == 0xc7f8a41756ad614d,
        square_lo(0x1a97936b620f481d, 0xc7f8a41756ad614d) == 0xe94bf5687ccf4c39,
        square_hi(0x1a97936b620f481d, 0xc7f8a41756ad614d) == 0xbb844bf6957599a6,
        square_lo(0xe94bf5687ccf4c39, 0xbb844bf6957599a6) == 0x5aadb3837634c244,
        square_hi(0xe94bf5687ccf4c39, 0xbb844bf6957599a6) == 0x2c3bd83d0661350d,
        square_lo(0x5aadb3837634c244, 0x2c3bd83d0661350d) == 0x1f726995c3f33829,
        square_hi(0x5aadb3837634c244, 0x2c3bd83d0661350d) == 0x24f6fc2353c7f232,
        square_lo(0x1f726995c3f33829, 0x24f6fc2353c7f232) == 0xa5b7efc52c5e9c53,
        square_hi(0x1f726995c3f33829, 0x24f6fc2353c7f232) == 0x150e344316f35f82,
        square_lo(0xa5b7efc52c5e9c53, 0x150e344316f35f82) == 0x891738c79d5ad319,
        square_hi(0xa5b7efc52c5e9c53, 0x150e344316f35f82) == 0xcbe66ebbc72d228a,
        square_lo(0x891738c79d5ad319, 0xcbe66ebbc72d228a) == 0xfbb824714f38f6c2,
        square_hi(0x891738c79d5ad319, 0xcbe66ebbc72d228a) == 0xd331a77342cf2867,
        square_lo(0xfbb824714f38f6c2, 0xd331a77342cf2867) == 0x62609e6968de22b0,
        square_hi(0xfbb824714f38f6c2, 0xd331a77342cf2867) == 0x60dcdee4d2f1fc92,
        square_lo(0x62609e6968de22b0, 0x60dcdee4d2f1fc92) == 0x21777af80695052a,
        square_hi(0x62609e6968de22b0, 0x60dcdee4d2f1fc92) == 0x782d0a995dd3b018,
        square_lo(0x21777af80695052a, 0x782d0a995dd3b018) == 0xde0a74a95b11a7b2,
        square_hi(0x21777af80695052a, 0x782d0a995dd3b018) == 0xcec3202236b9330f,
        square_lo(0xde0a74a95b11a7b2, 0xcec3202236b9330f) == 0x800a7b44dd8e7a70,
        square_hi(0xde0a74a95b11a7b2, 0xcec3202236b9330f) == 0xcad1b2dd09125a5f,
        square_lo(0x800a7b44dd8e7a70, 0xcad1b2dd09125a5f) == 0x7016c540c190dd74,
        square_hi(0x800a7b44dd8e7a70, 0xcad1b2dd09125a5f) == 0xd3f537e04c700e27,
        square_lo(0x7016c540c190dd74, 0xd3f537e04c700e27) == 0x09bbaa007aff17a4,
        square_hi(0x7016c540c190dd74, 0xd3f537e04c700e27) == 0x20b022e1c1d1bc08,
        square_lo(0x09bbaa007aff17a4, 0x20b022e1c1d1bc08) == 0xa5ea62f173a564de,
        square_hi(0x09bbaa007aff17a4, 0x20b022e1c1d1bc08) == 0x1c621e475a73acae,
        square_lo(0xa5ea62f173a564de, 0x1c621e475a73acae) == 0xc1d3ada9e183a6f8,
        square_hi(0xa5ea62f173a564de, 0x1c621e475a73acae) == 0xeaab3a58b8a02fe2,
        square_lo(0xc1d3ada9e183a6f8, 0xeaab3a58b8a02fe2) == 0x2ee29c077314ee0d,
        square_hi(0xc1d3ada9e183a6f8, 0xeaab3a58b8a02fe2) == 0xdffeae5cfc8592a2,
        square_lo(0x2ee29c077314ee0d, 0xdffeae5cfc8592a2) == 0x1794c9c6116bca12,
        square_hi(0x2ee29c077314ee0d, 0xdffeae5cfc8592a2) == 0x1854548bb6f4de8e,
        square_lo(0x1794c9c6116bca12, 0x1854548bb6f4de8e) == 0x5046371c4cc9eaa8,
        square_hi(0x1794c9c6116bca12, 0x1854548bb6f4de8e) == 0xa7ddbe68af10b36c,
        square_lo(0x5046371c4cc9eaa8, 0xa7ddbe68af10b36c) == 0xe77bd7620dd51099,
        square_hi(0x5046371c4cc9eaa8, 0xa7ddbe68af10b36c) == 0xc7c20e0075b34cb3,
        square_lo(0xe77bd7620dd51099, 0xc7c20e0075b34cb3) == 0xe385088258930c85,
        square_hi(0xe77bd7620dd51099, 0xc7c20e0075b34cb3) == 0xeed7a7597ab9140e,
        square_lo(0xe385088258930c85, 0xeed7a7597ab9140e) == 0xd9bf3b428f207eec,
        square_hi(0xe385088258930c85, 0xeed7a7597ab9140e) == 0xd3807dd9d6a39649,
        square_lo(0xd9bf3b428f207eec, 0xd3807dd9d6a39649) == 0x7d1adaba58301148,
        square_hi(0xd9bf3b428f207eec, 0xd3807dd9d6a39649) == 0x64fb855fc75b066a,
        square_lo(0x7d1adaba58301148, 0x64fb855fc75b066a) == 0xaba3d15b0b675aaa,
        square_hi(0x7d1adaba58301148, 0x64fb855fc75b066a) == 0x710a093e99bb9946,
        square_lo(0xaba3d15b0b675aaa, 0x710a093e99bb9946) == 0x66216c6f770b3b1e,
        square_hi(0xaba3d15b0b675aaa, 0x710a093e99bb9946) == 0xafc267d97044a1c8,
        square_lo(0x66216c6f770b3b1e, 0xafc267d97044a1c8) == 0xfe1d7816d9eb81fd,
        square_hi(0x66216c6f770b3b1e, 0xafc267d97044a1c8) == 0xe316b61772920218,
        square_lo(0xfe1d7816d9eb81fd, 0xe316b61772920218) == 0xb87c1159421de6c0,
        square_hi(0xfe1d7816d9eb81fd, 0xe316b61772920218) == 0xfbcf8c1e442c8cf5,
        square_lo(0xb87c1159421de6c0, 0xfbcf8c1e442c8cf5) == 0x687634c0bd8f66a6,
        square_hi(0xb87c1159421de6c0, 0xfbcf8c1e442c8cf5) == 0x4d328e5ae8b1bde5,
        square_lo(0x687634c0bd8f66a6, 0x4d328e5ae8b1bde5) == 0xc8b21bf16608e4db,
        square_hi(0x687634c0bd8f66a6, 0x4d328e5ae8b1bde5) == 0x4d758c29eeb484f7,
        square_lo(0xc8b21bf16608e4db, 0x4d758c29eeb484f7) == 0x939b53119c4b7496,
        square_hi(0xc8b21bf16608e4db, 0x4d758c29eeb484f7) == 0x097da6d2e8f7686d,
        square_lo(0x939b53119c4b7496, 0x097da6d2e8f7686d) == 0xccbb31a458da0423,
        square_hi(0x939b53119c4b7496, 0x097da6d2e8f7686d) == 0x60488351c7403436,
        square_lo(0xccbb31a458da0423, 0x60488351c7403436) == 0xaba321469362905f,
        square_hi(0xccbb31a458da0423, 0x60488351c7403436) == 0x3c5814a4c792b3be,
        square_lo(0xaba321469362905f, 0x3c5814a4c792b3be) == 0xfbcf513b18b860f7,
        square_hi(0xaba321469362905f, 0x3c5814a4c792b3be) == 0xf6fd92c58b52c44d,
        square_lo(0xfbcf513b18b860f7, 0xf6fd92c58b52c44d) == 0xe213b075ac781973,
        square_hi(0xfbcf513b18b860f7, 0xf6fd92c58b52c44d) == 0x740252435434bd93,
        square_lo(0xe213b075ac781973, 0x740252435434bd93) == 0xbb228613735755a8,
        square_hi(0xe213b075ac781973, 0x740252435434bd93) == 0xb7740311b0146782,
        square_lo(0xbb228613735755a8, 0xb7740311b0146782) == 0x4e059e6f77db9735,
        square_hi(0xbb228613735755a8, 0xb7740311b0146782) == 0x14a4e774428f86a1,
        square_lo(0x4e059e6f77db9735, 0x14a4e774428f86a1) == 0x6728ba4f8b5ad996,
        square_hi(0x4e059e6f77db9735, 0x14a4e774428f86a1) == 0x9f07d44ae7b5f72d,
        square_lo(0x6728ba4f8b5ad996, 0x9f07d44ae7b5f72d) == 0xe68d429870a86444,
        square_hi(0x6728ba4f8b5ad996, 0x9f07d44ae7b5f72d) == 0x783e0e827a3c43a2,
        square_lo(0xe68d429870a86444, 0x783e0e827a3c43a2) == 0xdddef6f866a8cb3a,
        square_hi(0xe68d429870a86444, 0x783e0e827a3c43a2) == 0x9ed6f0fd3b898356,
        square_lo(0xdddef6f866a8cb3a, 0x9ed6f0fd3b898356) == 0xac6ea52692d6e84f,
        square_hi(0xdddef6f866a8cb3a, 0x9ed6f0fd3b898356) == 0x3dd46c137e3f5775,
        square_lo(0xac6ea52692d6e84f, 0x3dd46c137e3f5775) == 0x81aae137a9a1f2ac,
        square_hi(0xac6ea52692d6e84f, 0x3dd46c137e3f5775) == 0xf64e2b2e01a18185,
        square_lo(0x81aae137a9a1f2ac, 0xf64e2b2e01a18185) == 0x44e598a795a299f6,
        square_hi(0x81aae137a9a1f2ac, 0xf64e2b2e01a18185) == 0x61651fea6b5832b9,
        square_lo(0x44e598a795a299f6, 0x61651fea6b5832b9) == 0x0e4292c6d87e2a65,
        square_hi(0x44e598a795a299f6, 0x61651fea6b5832b9) == 0x7c9d30e6ed40cbc3,
        square_lo(0x0e4292c6d87e2a65, 0x7c9d30e6ed40cbc3) == 0xd47f657d9736a3bc,
        square_hi(0x0e4292c6d87e2a65, 0x7c9d30e6ed40cbc3) == 0xc2c57e31da2ff653,
        square_lo(0xd47f657d9736a3bc, 0xc2c57e31da2ff653) == 0x55cb32146561a494,
        square_hi(0xd47f657d9736a3bc, 0xc2c57e31da2ff653) == 0xe325ada8d4bf8eff,
        square_lo(0x55cb32146561a494, 0xe325ada8d4bf8eff) == 0x2b42640baf97546a,
        square_hi(0x55cb32146561a494, 0xe325ada8d4bf8eff) == 0xbf884491f010fcf9,
        square_lo(0x2b42640baf97546a, 0xbf884491f010fcf9) == 0x6f55c63e138b0f6a,
        square_hi(0x2b42640baf97546a, 0xbf884491f010fcf9) == 0x744ff1cc6c4147e9,
        square_lo(0x6f55c63e138b0f6a, 0x744ff1cc6c4147e9) == 0x44bd30ca7a959c35,
        square_hi(0x6f55c63e138b0f6a, 0x744ff1cc6c4147e9) == 0xf72d4a117bba9cee,
        square_lo(0x44bd30ca7a959c35, 0xf72d4a117bba9cee) == 0xdd3c39ec2fcb97ec,
        square_hi(0x44bd30ca7a959c35, 0xf72d4a117bba9cee) == 0x31f9706e56dcd7c9,
        square_lo(0xdd3c39ec2fcb97ec, 0x31f9706e56dcd7c9) == 0xf9104edc7cd7c419,
        square_hi(0xdd3c39ec2fcb97ec, 0x31f9706e56dcd7c9) == 0xcafd0f1dee4b13f4,
        square_lo(0xf9104edc7cd7c419, 0xcafd0f1dee4b13f4) == 0x92f4024ed5a0366e,
        square_hi(0xf9104edc7cd7c419, 0xcafd0f1dee4b13f4) == 0xc6b603373b7fff4c,
        square_lo(0x92f4024ed5a0366e, 0xc6b603373b7fff4c) == 0xe9408400053759bb,
        square_hi(0x92f4024ed5a0366e, 0xc6b603373b7fff4c) == 0xfb4b047c029d81bd,
        square_lo(0xe9408400053759bb, 0xfb4b047c029d81bd) == 0x022c6b03d1e52223,
        square_hi(0xe9408400053759bb, 0xfb4b047c029d81bd) == 0x5c12435b486ac2b0,
        square_lo(0x022c6b03d1e52223, 0x5c12435b486ac2b0) == 0x00cb1be4b63b5b3d,
        square_hi(0x022c6b03d1e52223, 0x5c12435b486ac2b0) == 0xdeb4814466d6d456,
        square_lo(0x00cb1be4b63b5b3d, 0xdeb4814466d6d456) == 0x235138002e3dec62,
        square_hi(0x00cb1be4b63b5b3d, 0xdeb4814466d6d456) == 0x1c8f0314c1ca2c6a,
        square_lo(0x235138002e3dec62, 0x1c8f0314c1ca2c6a) == 0xb4fa968f61ea5bd8,
        square_hi(0x235138002e3dec62, 0x1c8f0314c1ca2c6a) == 0xaa94fa2a07db8f59,
        square_lo(0xb4fa968f61ea5bd8, 0xaa94fa2a07db8f59) == 0x1ec3403efa66966e,
        square_hi(0xb4fa968f61ea5bd8, 0xaa94fa2a07db8f59) == 0xbaed1a1f49ca7f89,
        square_lo(0x1ec3403efa66966e, 0xbaed1a1f49ca7f89) == 0x042a87c2811ee47a,
        square_hi(0x1ec3403efa66966e, 0xbaed1a1f49ca7f89) == 0x79a3d532b4dca977,
        square_lo(0x042a87c2811ee47a, 0x79a3d532b4dca977) == 0x13581fc7a95df199,
        square_hi(0x042a87c2811ee47a, 0x79a3d532b4dca977) == 0xca74daf67fe0c93b,
        square_lo(0x13581fc7a95df199, 0xca74daf67fe0c93b) == 0x8441bd78c444ed45,
        square_hi(0x13581fc7a95df199, 0xca74daf67fe0c93b) == 0x92d3f21915a27173,
        square_lo(0x8441bd78c444ed45, 0x92d3f21915a27173) == 0xdfc4ce06bfdce9ed,
        square_hi(0x8441bd78c444ed45, 0x92d3f21915a27173) == 0x052525b16c4db307,
        square_lo(0xdfc4ce06bfdce9ed, 0x052525b16c4db307) == 0x00ed08440dda5eba,
        square_hi(0xdfc4ce06bfdce9ed, 0x052525b16c4db307) == 0x59a044e544805b99,
        square_lo(0x00ed08440dda5eba, 0x59a044e544805b99) == 0x7800914cc52e273b,
        square_hi(0x00ed08440dda5eba, 0x59a044e544805b99) == 0xd6648859781bb4ef,
        square_lo(0x7800914cc52e273b, 0xd6648859781bb4ef) == 0x9ad1a02c574e9631,
        square_hi(0x7800914cc52e273b, 0xd6648859781bb4ef) == 0x28266451a0c9c61d,
        square_lo(0x9ad1a02c574e9631, 0x28266451a0c9c61d) == 0xcd3c813afb78aa38,
        square_hi(0x9ad1a02c574e9631, 0x28266451a0c9c61d) == 0x7c8647672078f3f4,
        square_lo(0xcd3c813afb78aa38, 0x7c8647672078f3f4) == 0x494fdfab6df42306,
        square_hi(0xcd3c813afb78aa38, 0x7c8647672078f3f4) == 0x92c0cf343ae063ad,
        square_lo(0x494fdfab6df42306, 0x92c0cf343ae063ad) == 0xaca6f91a6abde544,
        square_hi(0x494fdfab6df42306, 0x92c0cf343ae063ad) == 0x5574a07cca7cd737,
        square_lo(0xaca6f91a6abde544, 0x5574a07cca7cd737) == 0x879287c869f885c3,
        square_hi(0xaca6f91a6abde544, 0x5574a07cca7cd737) == 0xbbada747894bc3dd,
        square_lo(0x879287c869f885c3, 0xbbada747894bc3dd) == 0xf50e0632f2a35f5b,
        square_hi(0x879287c869f885c3, 0xbbada747894bc3dd) == 0x386db41096f62a8a,
        square_lo(0xf50e0632f2a35f5b, 0x386db41096f62a8a) == 0x1843656b2ea8f397,
        square_hi(0xf50e0632f2a35f5b, 0x386db41096f62a8a) == 0xefdb454053648225,
        square_lo(0x1843656b2ea8f397, 0xefdb454053648225) == 0xf1c52011971b40b3,
        square_hi(0x1843656b2ea8f397, 0xefdb454053648225) == 0x864204566cee644d,
        square_lo(0xf1c52011971b40b3, 0x864204566cee644d) == 0x048e86e374780c55,
        square_hi(0xf1c52011971b40b3, 0x864204566cee644d) == 0x9f65220d0c78fc67,
        square_lo(0x048e86e374780c55, 0x9f65220d0c78fc67) == 0x3caadfab02ea679d,
        square_hi(0x048e86e374780c55, 0x9f65220d0c78fc67) == 0x6c3124a15e087d32,
        square_lo(0x3caadfab02ea679d, 0x6c3124a15e087d32) == 0xdca8758ed620dd7b,
        square_hi(0x3caadfab02ea679d, 0x6c3124a15e087d32) == 0x40e2dfc1450698ca,
        square_lo(0xdca8758ed620dd7b, 0x40e2dfc1450698ca) == 0x29e30e4d37b882a1,
        square_hi(0xdca8758ed620dd7b, 0x40e2dfc1450698ca) == 0x217bea750913f0db,
        square_lo(0x29e30e4d37b882a1, 0x217bea750913f0db) == 0x2452c0f06b2d5154,
        square_hi(0x29e30e4d37b882a1, 0x217bea750913f0db) == 0x18cc9c758f82f3a6,
        square_lo(0x2452c0f06b2d5154, 0x18cc9c758f82f3a6) == 0xff4fc66638b9c77c,
        square_hi(0x2452c0f06b2d5154, 0x18cc9c758f82f3a6) == 0xa2f988953ebab6d6,
        square_lo(0xff4fc66638b9c77c, 0xa2f988953ebab6d6) == 0xb5cf3dbe01503955,
        square_hi(0xff4fc66638b9c77c, 0xa2f988953ebab6d6) == 0x8b621a33b1f55be1,
        square_lo(0xb5cf3dbe01503955, 0x8b621a33b1f55be1) == 0x5bad32ffd131adf1,
        square_hi(0xb5cf3dbe01503955, 0x8b621a33b1f55be1) == 0xa6403e49a18fdcec,
        square_lo(0x5bad32ffd131adf1, 0xa6403e49a18fdcec) == 0x8da7ee035acac1d8,
        square_hi(0x5bad32ffd131adf1, 0xa6403e49a18fdcec) == 0xc7213453b5a00431,
        square_lo(0x8da7ee035acac1d8, 0xc7213453b5a00431) == 0x42908c445873de98,
        square_hi(0x8da7ee035acac1d8, 0xc7213453b5a00431) == 0xfab85890c72cf5bd,
        square_lo(0x42908c445873de98, 0xfab85890c72cf5bd) == 0xaba9209e72802626,
        square_hi(0x42908c445873de98, 0xfab85890c72cf5bd) == 0x18fb3bc896b15739,
        square_lo(0xaba9209e72802626, 0x18fb3bc896b15739) == 0x584b1b8ff9fdbe53,
        square_hi(0xaba9209e72802626, 0x18fb3bc896b15739) == 0xe2ae4c18bc72d0b5,
        square_lo(0x584b1b8ff9fdbe53, 0xe2ae4c18bc72d0b5) == 0x27fbbc64727757a3,
        square_hi(0x584b1b8ff9fdbe53, 0xe2ae4c18bc72d0b5) == 0xbf7fe7e158f5e6b6,
        square_lo(0x27fbbc64727757a3, 0xbf7fe7e158f5e6b6) == 0xc3ef36c9b75a0400,
        square_hi(0x27fbbc64727757a3, 0xbf7fe7e158f5e6b6) == 0x74349545e390b89f,
        square_lo(0xc3ef36c9b75a0400, 0x74349545e390b89f) == 0xebaf56677af1691d,
        square_hi(0xc3ef36c9b75a0400, 0x74349545e390b89f) == 0xb377c7044aeb289d,
        square_lo(0xebaf56677af1691d, 0xb377c7044aeb289d) == 0x46b3da5829a07e0f,
        square_hi(0xebaf56677af1691d, 0xb377c7044aeb289d) == 0x0dd4a597abff1c6d,
        square_lo(0x46b3da5829a07e0f, 0x0dd4a597abff1c6d) == 0xfb31442bbbee4562,
        square_hi(0x46b3da5829a07e0f, 0x0dd4a597abff1c6d) == 0x390a7a5685925c88,
        square_lo(0xfb31442bbbee4562, 0x390a7a5685925c88) == 0x8d931140ce80f4ca,
        square_hi(0xfb31442bbbee4562, 0x390a7a5685925c88) == 0xef0226d7d8c4f908,
        square_lo(0x8d931140ce80f4ca, 0xef0226d7d8c4f908) == 0x46bdf85b5f5764d5,
        square_hi(0x8d931140ce80f4ca, 0xef0226d7d8c4f908) == 0xc77a431b17442dc2,
        square_lo(0x46bdf85b5f5764d5, 0xc77a431b17442dc2) == 0x9cb66967210ef752,
        square_hi(0x46bdf85b5f5764d5, 0xc77a431b17442dc2) == 0xaaf58d8527dbb51e,
        square_lo(0x9cb66967210ef752, 0xaaf58d8527dbb51e) == 0x12c3142c06e2acc1,
        square_hi(0x9cb66967210ef752, 0xaaf58d8527dbb51e) == 0xbea766c2fd57dce0,
        square_lo(0x12c3142c06e2acc1, 0xbea766c2fd57dce0) == 0x022ba9c65acbed68,
        square_hi(0x12c3142c06e2acc1, 0xbea766c2fd57dce0) == 0x718b86e46755b667,
        square_lo(0x022ba9c65acbed68, 0x718b86e46755b667) == 0x77a7af910537779d,
        square_hi(0x022ba9c65acbed68, 0x718b86e46755b667) == 0xeba2e73f8e06f46e,
        square_lo(0x77a7af910537779d, 0xeba2e73f8e06f46e) == 0xebbd0f52366f13ac,
        square_hi(0x77a7af910537779d, 0xeba2e73f8e06f46e) == 0x9a6d9a22e2bcf10b,
        square_lo(0xebbd0f52366f13ac, 0x9a6d9a22e2bcf10b) == 0xab2b66ce2a82776c,
        square_hi(0xebbd0f52366f13ac, 0x9a6d9a22e2bcf10b) == 0x30930047648b0f33,
        square_lo(0xab2b66ce2a82776c, 0x30930047648b0f33) == 0x6015a35f3e3c8cc5,
        square_hi(0xab2b66ce2a82776c, 0x30930047648b0f33) == 0xdf6441de141c2ab5,
        square_lo(0x6015a35f3e3c8cc5, 0xdf6441de141c2ab5) == 0x8a24abe27faf17b9,
        square_hi(0x6015a35f3e3c8cc5, 0xdf6441de141c2ab5) == 0x0821656934ab0df9,
        square_lo(0x8a24abe27faf17b9, 0x0821656934ab0df9) == 0x8606bb0e28094f06,
        square_hi(0x8a24abe27faf17b9, 0x0821656934ab0df9) == 0x6186189d20b81941,
        square_lo(0x8606bb0e28094f06, 0x6186189d20b81941) == 0x18637a81b61a75a5,
        square_hi(0x8606bb0e28094f06, 0x6186189d20b81941) == 0x2cb2ca78e3a46e61,
        square_lo(0x18637a81b61a75a5, 0x2cb2ca78e3a46e61) == 0xebacd53e52b72998,
        square_hi(0x18637a81b61a75a5, 0x2cb2ca78e3a46e61) == 0x34d34d3086928aea,
        square_lo(0xebacd53e52b72998, 0x34d34d3086928aea) == 0xdb490028e7b6cf92,
        square_hi(0xebacd53e52b72998, 0x34d34d3086928aea) == 0xc71c71c308249e75,
        square_lo(0xdb490028e7b6cf92, 0xc71c71c308249e75) == 0x75d751453cf3b6ac,
        square_hi(0xdb490028e7b6cf92, 0xc71c71c308249e75) == 0xebaebefbebaeb6db,
        square_lo(0x75d751453cf3b6ac, 0xebaebefbebaeb6db) == 0x8a28a28a1451455a,
        square_hi(0x75d751453cf3b6ac, 0xebaebefbebaeb6db) == 0x9a69a69a61861861,
        square_lo(0x8a28a28a1451455a, 0x9a69a69a61861861) == 0x6db6db6db6db6da4,
        square_hi(0x8a28a28a1451455a, 0x9a69a69a61861861) == 0x2492492492492492,
        square_lo(0x6db6db6db6db6da4, 0x2492492492492492) == 0x0000000000000002,
        square_hi(0x6db6db6db6db6da4, 0x2492492492492492) == 0x0000000000000000,
{
}

/// `square` is the field square.
proof fn lemma_square_is_product(a: F128)
    ensures
        square(a) == fmul(a, a),
{
    let f = |v: F128| square(v);
    let g = |v: F128| fmul(v, v);
    lemma_square_words(0, 0, 0, 0);
    assert(linear_map(f)) by {
        assert forall|u: F128, v: F128| f(fadd(u, v)) == #[trigger] fadd(f(u), f(v)) by {
            lemma_square_words(u.lo, v.lo, u.hi, v.hi);
        }
    }
    assert(linear_map(g)) by {
        assert forall|u: F128, v: F128| g(fadd(u, v)) == #[trigger] fadd(g(u), g(v)) by {
            lemma_square_sum(u, v);
        }
    }
    assert(1u64 << 0 == 1) by (bit_vector);
    lemma_fmul_one(fone());
    assert forall|i: int| 0 <= i < 127 && f(monomial(i)) == g(monomial(i)) implies #[trigger] f(
        xtime(monomial(i)),
    ) == g(xtime(monomial(i))) by {
        let m = monomial(i);
        lemma_square_words(m.lo, 0, m.hi, 0);
        assert(f(xtime(m)) == xtime(xtime(f(m))));
        lemma_fmul_x(m);
        lemma_fmul_x(xtime(g(m)));
        lemma_fmul_x(g(m));
        lemma_product_square(m, x_element());
        lemma_fmul_assoc(g(m), x_element(), x_element());
    }
    lemma_induct_on_monomials(f, g, a);
}

/// Squaring a sum squares the terms.
pub proof fn lemma_square_sum(u: F128, v: F128)
    ensures
        fmul(fadd(u, v), fadd(u, v)) == fadd(fmul(u, u), fmul(v, v)),
{
    lemma_fmul_distr(fadd(u, v), u, v);
    lemma_fmul_distr(u, u, v);
    lemma_fmul_distr(v, u, v);
    lemma_fmul_comm(u, v);
    let c = fmul(u, v);
    lemma_fadd_assoc(fmul(u, u), c, fadd(c, fmul(v, v)));
    lemma_fadd_assoc(c, c, fmul(v, v));
    lemma_fadd_self(c);
    lemma_fadd_zero(fmul(v, v));
}

/// `(a b)^2 = a^2 b^2`.
pub proof fn lemma_product_square(a: F128, b: F128)
    ensures
        fmul(fmul(a, b), fmul(a, b)) == fmul(fmul(a, a), fmul(b, b)),
{
    lemma_fmul_assoc(a, b, fmul(a, b));
    lemma_fmul_comm(a, b);
    lemma_fmul_assoc(b, b, a);
    lemma_fmul_comm(fmul(b, b), a);
    lemma_fmul_assoc(a, a, fmul(b, b));
}

/// The element `x`.
pub open spec fn x_element() -> F128 {
    F128 { lo: 2, hi: 0 }
}

/// `a^(2^k)`, by repeated squaring.
pub open spec fn frob(a: F128, k: int) -> F128
    decreases k,
{
    if k <= 0 {
        a
    } else {
        fmul(frob(a, k - 1), frob(a, k - 1))
    }
}

/// The product of `a^(2^j)` over `from <= j < to`.
pub open spec fn frob_product(a: F128, from: int, to: int) -> F128
    decreases to - from,
{
    if to <= from {
        fone()
    } else {
        fmul(frob_product(a, from, to - 1), frob(a, to - 1))
    }
}

proof fn lemma_frob_add(a: F128, b: F128, k: int)
    ensures
        frob(fadd(a, b), k) == fadd(frob(a, k), frob(b, k)),
    decreases k,
{
    if k > 0 {
        lemma_frob_add(a, b, k - 1);
        lemma_square_sum(frob(a, k - 1), frob(b, k - 1));
    }
}

proof fn lemma_frob_mul(a: F128, b: F128, k: int)
    ensures
        frob(fmul(a, b), k) == fmul(frob(a, k), frob(b, k)),
    decreases k,
{
    if k > 0 {
        lemma_frob_mul(a, b, k - 1);
        lemma_product_square(frob(a, k - 1), frob(b, k - 1));
    }
}

proof fn lemma_frob_one(k: int)
    ensures
        frob(fone(), k) == fone(),
    decreases k,
{
    if k > 0 {
        lemma_frob_one(k - 1);
        lemma_fmul_one(fone());
    }
}

#[verifier::rlimit(50)]
proof fn lemma_x_orbit()
    ensures
        frob(x_element(), 128) == x_element(),
{
    lemma_square_orbit();
    assert forall|k: int| k > 0 implies #[trigger] frob(x_element(), k) == square(
        frob(x_element(), k - 1),
    ) by {
        lemma_square_is_product(frob(x_element(), k - 1));
    }
    assert(frob(x_element(), 1) == F128 { lo: 0x0000000000000004, hi: 0x0000000000000000 });
    assert(frob(x_element(), 2) == F128 { lo: 0x0000000000000010, hi: 0x0000000000000000 });
    assert(frob(x_element(), 3) == F128 { lo: 0x0000000000000100, hi: 0x0000000000000000 });
    assert(frob(x_element(), 4) == F128 { lo: 0x0000000000010000, hi: 0x0000000000000000 });
    assert(frob(x_element(), 5) == F128 { lo: 0x0000000100000000, hi: 0x0000000000000000 });
    assert(frob(x_element(), 6) == F128 { lo: 0x0000000000000000, hi: 0x0000000000000001 });
    assert(frob(x_element(), 7) == F128 { lo: 0x0000000000000087, hi: 0x0000000000000000 });
    assert(frob(x_element(), 8) == F128 { lo: 0x0000000000004015, hi: 0x0000000000000000 });
    assert(frob(x_element(), 9) == F128 { lo: 0x0000000010000111, hi: 0x0000000000000000 });
    assert(frob(x_element(), 10) == F128 { lo: 0x0100000000010101, hi: 0x0000000000000000 });
    assert(frob(x_element(), 11) == F128 { lo: 0x0000000100010001, hi: 0x0001000000000000 });
    assert(frob(x_element(), 12) == F128 { lo: 0x0000000100000001, hi: 0x0000008700000001 });
    assert(frob(x_element(), 13) == F128 { lo: 0x0000000000000086, hi: 0x000000000021caea });
    assert(frob(x_element(), 14) == F128 { lo: 0x00021cae93f7cfc8, hi: 0x0000000000000000 });
    assert(frob(x_element(), 15) == F128 { lo: 0x4105551550555040, hi: 0x0000000401504454 });
    assert(frob(x_element(), 16) == F128 { lo: 0x118fe6196978ef70, hi: 0x1001001111110961 });
    assert(frob(x_element(), 17) == F128 { lo: 0x93c692c775187987, hi: 0x860140d2541486c6 });
    assert(frob(x_element(), 18) == F128 { lo: 0xea618e11df04ea1e, hi: 0x8b69509b312d6501 });
    assert(frob(x_element(), 19) == F128 { lo: 0xcad0352d30b311b4, hi: 0xb715594eb7756558 });
    assert(frob(x_element(), 20) == F128 { lo: 0x54e1a6f865fe82b9, hi: 0x01afdeffd35e5fde });
    assert(frob(x_element(), 21) == F128 { lo: 0x218289f09c0659ed, hi: 0x11b4a30358935542 });
    assert(frob(x_element(), 22) == F128 { lo: 0x97b14587eebe264d, hi: 0x83a513579eda5793 });
    assert(frob(x_element(), 23) == F128 { lo: 0x38d15180f9de45ad, hi: 0x83ad91f69582bddf });
    assert(frob(x_element(), 24) == F128 { lo: 0x1a97936b620f481d, hi: 0xc7f8a41756ad614d });
    assert(frob(x_element(), 25) == F128 { lo: 0xe94bf5687ccf4c39, hi: 0xbb844bf6957599a6 });
    assert(frob(x_element(), 26) == F128 { lo: 0x5aadb3837634c244, hi: 0x2c3bd83d0661350d });
    assert(frob(x_element(), 27) == F128 { lo: 0x1f726995c3f33829, hi: 0x24f6fc2353c7f232 });
    assert(frob(x_element(), 28) == F128 { lo: 0xa5b7efc52c5e9c53, hi: 0x150e344316f35f82 });
    assert(frob(x_element(), 29) == F128 { lo: 0x891738c79d5ad319, hi: 0xcbe66ebbc72d228a });
    assert(frob(x_element(), 30) == F128 { lo: 0xfbb824714f38f6c2, hi: 0xd331a77342cf2867 });
    assert(frob(x_element(), 31) == F128 { lo: 0x62609e6968de22b0, hi: 0x60dcdee4d2f1fc92 });
    assert(frob(x_element(), 32) == F128 { lo: 0x21777af80695052a, hi: 0x782d0a995dd3b018 });
    assert(frob(x_element(), 33) == F128 { lo: 0xde0a74a95b11a7b2, hi: 0xcec3202236b9330f });
    assert(frob(x_element(), 34) == F128 { lo: 0x800a7b44dd8e7a70, hi: 0xcad1b2dd09125a5f });
    assert(frob(x_element(), 35) == F128 { lo: 0x7016c540c190dd74, hi: 0xd3f537e04c700e27 });
    assert(frob(x_element(), 36) == F128 { lo: 0x09bbaa007aff17a4, hi: 0x20b022e1c1d1bc08 });
    assert(frob(x_element(), 37) == F128 { lo: 0xa5ea62f173a564de, hi: 0x1c621e475a73acae });
    assert(frob(x_element(), 38) == F128 { lo: 0xc1d3ada9e183a6f8, hi: 0xeaab3a58b8a02fe2 });
    assert(frob(x_element(), 39) == F128 { lo: 0x2ee29c077314ee0d, hi: 0xdffeae5cfc8592a2 });
    assert(frob(x_element(), 40) == F128 { lo: 0x1794c9c6116bca12, hi: 0x1854548bb6f4de8e });
    assert(frob(x_element(), 41) == F128 { lo: 0x5046371c4cc9eaa8, hi: 0xa7ddbe68af10b36c });
    assert(frob(x_element(), 42) == F128 { lo: 0xe77bd7620dd51099, hi: 0xc7c20e0075b34cb3 });
    assert(frob(x_element(), 43) == F128 { lo: 0xe385088258930c85, hi: 0xeed7a7597ab9140e });
    assert(frob(x_element(), 44) == F128 { lo: 0xd9bf3b428f207eec, hi: 0xd3807dd9d6a39649 });
    assert(frob(x_element(), 45) == F128 { lo: 0x7d1adaba58301148, hi: 0x64fb855fc75b066a });
    assert(frob(x_element(), 46) == F128 { lo: 0xaba3d15b0b675aaa, hi: 0x710a093e99bb9946 });
    assert(frob(x_element(), 47) == F128 { lo: 0x66216c6f770b3b1e, hi: 0xafc267d97044a1c8 });
    assert(frob(x_element(), 48) == F128 { lo: 0xfe1d7816d9eb81fd, hi: 0xe316b61772920218 });
    assert(frob(x_element(), 49) == F128 { lo: 0xb87c1159421de6c0, hi: 0xfbcf8c1e442c8cf5 });
    assert(frob(x_element(), 50) == F128 { lo: 0x687634c0bd8f66a6, hi: 0x4d328e5ae8b1bde5 });
    assert(frob(x_element(), 51) == F128 { lo: 0xc8b21bf16608e4db, hi: 0x4d758c29eeb484f7 });
    assert(frob(x_element(), 52) == F128 { lo: 0x939b53119c4b7496, hi: 0x097da6d2e8f7686d });
    assert(frob(x_element(), 53) == F128 { lo: 0xccbb31a458da0423, hi: 0x60488351c7403436 });
    assert(frob(x_element(), 54) == F128 { lo: 0xaba321469362905f, hi: 0x3c5814a4c792b3be });
    assert(frob(x_element(), 55) == F128 { lo: 0xfbcf513b18b860f7, hi: 0xf6fd92c58b52c44d });
    assert(frob(x_element(), 56) == F128 { lo: 0xe213b075ac781973, hi: 0x740252435434bd93 });
    assert(frob(x_element(), 57) == F128 { lo: 0xbb228613735755a8, hi: 0xb7740311b0146782 });
    assert(frob(x_element(), 58) == F128 { lo: 0x4e059e6f77db9735, hi: 0x14a4e774428f86a1 });
    assert(frob(x_element(), 59) == F128 { lo: 0x6728ba4f8b5ad996, hi: 0x9f07d44ae7b5f72d });
    assert(frob(x_element(), 60) == F128 { lo: 0xe68d429870a86444, hi: 0x783e0e827a3c43a2 });
    assert(frob(x_element(), 61) == F128 { lo: 0xdddef6f866a8cb3a, hi: 0x9ed6f0fd3b898356 });
    assert(frob(x_element(), 62) == F128 { lo: 0xac6ea52692d6e84f, hi: 0x3dd46c137e3f5775 });
    assert(frob(x_element(), 63) == F128 { lo: 0x81aae137a9a1f2ac, hi: 0xf64e2b2e01a18185 });
    assert(frob(x_element(), 64) == F128 { lo: 0x44e598a795a299f6, hi: 0x61651fea6b5832b9 });
    assert(frob(x_element(), 65) == F128 { lo: 0x0e4292c6d87e2a65, hi: 0x7c9d30e6ed40cbc3 });
    assert(frob(x_element(), 66) == F128 { lo: 0xd47f657d9736a3bc, hi: 0xc2c57e31da2ff653 });
    assert(frob(x_element(), 67) == F128 { lo: 0x55cb32146561a494, hi: 0xe325ada8d4bf8eff });
    assert(frob(x_element(), 68) == F128 { lo: 0x2b42640baf97546a, hi: 0xbf884491f010fcf9 });
    assert(frob(x_element(), 69) == F128 { lo: 0x6f55c63e138b0f6a, hi: 0x744ff1cc6c4147e9 });
    assert(frob(x_element(), 70) == F128 { lo: 0x44bd30ca7a959c35, hi: 0xf72d4a117bba9cee });
    assert(frob(x_element(), 71) == F128 { lo: 0xdd3c39ec2fcb97ec, hi: 0x31f9706e56dcd7c9 });
    assert(frob(x_element(), 72) == F128 { lo: 0xf9104edc7cd7c419, hi: 0xcafd0f1dee4b13f4 });
    assert(frob(x_element(), 73) == F128 { lo: 0x92f4024ed5a0366e, hi: 0xc6b603373b7fff4c });
    assert(frob(x_element(), 74) == F128 { lo: 0xe9408400053759bb, hi: 0xfb4b047c029d81bd });
    assert(frob(x_element(), 75) == F128 { lo: 0x022c6b03d1e52223, hi: 0x5c12435b486ac2b0 });
    assert(frob(x_element(), 76) == F128 { lo: 0x00cb1be4b63b5b3d, hi: 0xdeb4814466d6d456 });
    assert(frob(x_element(), 77) == F128 { lo: 0x235138002e3dec62, hi: 0x1c8f0314c1ca2c6a });
    assert(frob(x_element(), 78) == F128 { lo: 0xb4fa968f61ea5bd8, hi: 0xaa94fa2a07db8f59 });
    assert(frob(x_element(), 79) == F128 { lo: 0x1ec3403efa66966e, hi: 0xbaed1a1f49ca7f89 });
    assert(frob(x_element(), 80) == F128 { lo: 0x042a87c2811ee47a, hi: 0x79a3d532b4dca977 });
    assert(frob(x_element(), 81) == F128 { lo: 0x13581fc7a95df199, hi: 0xca74daf67fe0c93b });
    assert(frob(x_element(), 82) == F128 { lo: 0x8441bd78c444ed45, hi: 0x92d3f21915a27173 });
    assert(frob(x_element(), 83) == F128 { lo: 0xdfc4ce06bfdce9ed, hi: 0x052525b16c4db307 });
    assert(frob(x_element(), 84) == F128 { lo: 0x00ed08440dda5eba, hi: 0x59a044e544805b99 });
    assert(frob(x_element(), 85) == F128 { lo: 0x7800914cc52e273b, hi: 0xd6648859781bb4ef });
    assert(frob(x_element(), 86) == F128 { lo: 0x9ad1a02c574e9631, hi: 0x28266451a0c9c61d });
    assert(frob(x_element(), 87) == F128 { lo: 0xcd3c813afb78aa38, hi: 0x7c8647672078f3f4 });
    assert(frob(x_element(), 88) == F128 { lo: 0x494fdfab6df42306, hi: 0x92c0cf343ae063ad });
    assert(frob(x_element(), 89) == F128 { lo: 0xaca6f91a6abde544, hi: 0x5574a07cca7cd737 });
    assert(frob(x_element(), 90) == F128 { lo: 0x879287c869f885c3, hi: 0xbbada747894bc3dd });
    assert(frob(x_element(), 91) == F128 { lo: 0xf50e0632f2a35f5b, hi: 0x386db41096f62a8a });
    assert(frob(x_element(), 92) == F128 { lo: 0x1843656b2ea8f397, hi: 0xefdb454053648225 });
    assert(frob(x_element(), 93) == F128 { lo: 0xf1c52011971b40b3, hi: 0x864204566cee644d });
    assert(frob(x_element(), 94) == F128 { lo: 0x048e86e374780c55, hi: 0x9f65220d0c78fc67 });
    assert(frob(x_element(), 95) == F128 { lo: 0x3caadfab02ea679d, hi: 0x6c3124a15e087d32 });
    assert(frob(x_element(), 96) == F128 { lo: 0xdca8758ed620dd7b, hi: 0x40e2dfc1450698ca });
    assert(frob(x_element(), 97) == F128 { lo: 0x29e30e4d37b882a1, hi: 0x217bea750913f0db });
    assert(frob(x_element(), 98) == F128 { lo: 0x2452c0f06b2d5154, hi: 0x18cc9c758f82f3a6 });
    assert(frob(x_element(), 99) == F128 { lo: 0xff4fc66638b9c77c, hi: 0xa2f988953ebab6d6 });
    assert(frob(x_element(), 100) == F128 { lo: 0xb5cf3dbe01503955, hi: 0x8b621a33b1f55be1 });
    assert(frob(x_element(), 101) == F128 { lo: 0x5bad32ffd131adf1, hi: 0xa6403e49a18fdcec });
    assert(frob(x_element(), 102) == F128 { lo: 0x8da7ee035acac1d8, hi: 0xc7213453b5a00431 });
    assert(frob(x_element(), 103) == F128 { lo: 0x42908c445873de98, hi: 0xfab85890c72cf5bd });
    assert(frob(x_element(), 104) == F128 { lo: 0xaba9209e72802626, hi: 0x18fb3bc896b15739 });
    assert(frob(x_element(), 105) == F128 { lo: 0x584b1b8ff9fdbe53, hi: 0xe2ae4c18bc72d0b5 });
    assert(frob(x_element(), 106) == F128 { lo: 0x27fbbc64727757a3, hi: 0xbf7fe7e158f5e6b6 });
    assert(frob(x_element(), 107) == F128 { lo: 0xc3ef36c9b75a0400, hi: 0x74349545e390b89f });
    assert(frob(x_element(), 108) == F128 { lo: 0xebaf56677af1691d, hi: 0xb377c7044aeb289d });
    assert(frob(x_element(), 109) == F128 { lo: 0x46b3da5829a07e0f, hi: 0x0dd4a597abff1c6d });
    assert(frob(x_element(), 110) == F128 { lo: 0xfb31442bbbee4562, hi: 0x390a7a5685925c88 });
    assert(frob(x_element(), 111) == F128 { lo: 0x8d931140ce80f4ca, hi: 0xef0226d7d8c4f908 });
    assert(frob(x_element(), 112) == F128 { lo: 0x46bdf85b5f5764d5, hi: 0xc77a431b17442dc2 });
    assert(frob(x_element(), 113) == F128 { lo: 0x9cb66967210ef752, hi: 0xaaf58d8527dbb51e });
    assert(frob(x_element(), 114) == F128 { lo: 0x12c3142c06e2acc1, hi: 0xbea766c2fd57dce0 });
    assert(frob(x_element(), 115) == F128 { lo: 0x022ba9c65acbed68, hi: 0x718b86e46755b667 });
    assert(frob(x_element(), 116) == F128 { lo: 0x77a7af910537779d, hi: 0xeba2e73f8e06f46e });
    assert(frob(x_element(), 117) == F128 { lo: 0xebbd0f52366f13ac, hi: 0x9a6d9a22e2bcf10b });
    assert(frob(x_element(), 118) == F128 { lo: 0xab2b66ce2a82776c, hi: 0x30930047648b0f33 });
    assert(frob(x_element(), 119) == F128 { lo: 0x6015a35f3e3c8cc5, hi: 0xdf6441de141c2ab5 });
    assert(frob(x_element(), 120) == F128 { lo: 0x8a24abe27faf17b9, hi: 0x0821656934ab0df9 });
    assert(frob(x_element(), 121) == F128 { lo: 0x8606bb0e28094f06, hi: 0x6186189d20b81941 });
    assert(frob(x_element(), 122) == F128 { lo: 0x18637a81b61a75a5, hi: 0x2cb2ca78e3a46e61 });
    assert(frob(x_element(), 123) == F128 { lo: 0xebacd53e52b72998, hi: 0x34d34d3086928aea });
    assert(frob(x_element(), 124) == F128 { lo: 0xdb490028e7b6cf92, hi: 0xc71c71c308249e75 });
    assert(frob(x_element(), 125) == F128 { lo: 0x75d751453cf3b6ac, hi: 0xebaebefbebaeb6db });
    assert(frob(x_element(), 126) == F128 { lo: 0x8a28a28a1451455a, hi: 0x9a69a69a61861861 });
    assert(frob(x_element(), 127) == F128 { lo: 0x6db6db6db6db6da4, hi: 0x2492492492492492 });
    assert(frob(x_element(), 128) == F128 { lo: 0x0000000000000002, hi: 0x0000000000000000 });
}

/// Every element returns to itself after 128 squarings.
pub proof fn lemma_frob_period(a: F128)
    ensures
        frob(a, 128) == a,
{
    let f = |v: F128| frob(v, 128);
    let g = |v: F128| v;
    lemma_x_orbit();
    assert(linear_map(f)) by {
        assert forall|u: F128, v: F128| f(fadd(u, v)) == #[trigger] fadd(f(u), f(v)) by {
            lemma_frob_add(u, v, 128);
        }
    }
    assert(linear_map(g));
    assert(1u64 << 0 == 1) by (bit_vector);
    lemma_frob_one(128);
    assert forall|i: int| 0 <= i < 127 && f(monomial(i)) == g(monomial(i)) implies #[trigger] f(
        xtime(monomial(i)),
    ) == g(xtime(monomial(i))) by {
        lemma_fmul_x(monomial(i));
        lemma_frob_mul(monomial(i), x_element(), 128);
    }
    lemma_induct_on_monomials(f, g, a);
}

/// `a^(2^k) = a * (the product of a^(2^j) over j < k)`.
proof fn lemma_frob_telescopes(a: F128, k: int)
    requires
        0 <= k,
    ensures
        frob(a, k) == fmul(a, frob_product(a, 0, k)),
    decreases k,
{
    if k == 0 {
        lemma_fmul_one(a);
    } else {
        lemma_frob_telescopes(a, k - 1);
        lemma_fmul_assoc(a, frob_product(a, 0, k - 1), frob(a, k - 1));
    }
}

/// Squaring a product of powers moves every factor one step on.
proof fn lemma_square_frob_product(a: F128, to: int)
    requires
        0 <= to,
    ensures
        fmul(frob_product(a, 0, to), frob_product(a, 0, to)) == frob_product(a, 1, to + 1),
    decreases to,
{
    if to == 0 {
        lemma_fmul_one(fone());
    } else {
        lemma_square_frob_product(a, to - 1);
        lemma_product_square(frob_product(a, 0, to - 1), frob(a, to - 1));
    }
}

proof fn lemma_frob_product_first(a: F128, to: int)
    requires
        0 < to,
    ensures
        frob_product(a, 0, to) == fmul(a, frob_product(a, 1, to)),
    decreases to,
{
    if to == 1 {
        reveal_with_fuel(frob_product, 2);
        lemma_fmul_one(a);
    } else {
        lemma_frob_product_first(a, to - 1);
        lemma_fmul_assoc(a, frob_product(a, 1, to - 1), frob(a, to - 1));
    }
}

/// The product of `a^(2^j)` over `1 <= j < 128` is the inverse of a nonzero
/// `a`: times `a` it is a fixed point of squaring, hence zero or one.
pub proof fn lemma_inverse(a: F128)
    requires
        a != fzero(),
    ensures
        fmul(a, frob_product(a, 1, 128)) == fone(),
{
    let n = frob_product(a, 0, 128);
    lemma_frob_product_first(a, 128);
    lemma_square_frob_product(a, 128);
    lemma_frob_period(a);
    lemma_fmul_comm(a, frob_product(a, 1, 128));
    assert(fmul(n, n) == n);
    lemma_square_is_product(n);
    lemma_square_words(n.lo, 0, n.hi, 0);
    lemma_frob_telescopes(a, 128);
    lemma_fmul_zero(a);
}

/// The multiplicative inverse; zero for zero.
pub open spec fn finv(a: F128) -> F128 {
    if a == fzero() {
        fzero()
    } else {
        choose|y: F128| fmul(a, y) == fone()
    }
}

/// A nonzero element times its inverse is one, and nothing else is.
pub proof fn lemma_finv(a: F128, y: F128)
    requires
        a != fzero(),
    ensures
        fmul(a, finv(a)) == fone(),
        fmul(finv(a), a) == fone(),
        fmul(a, y) == fone() ==> y == finv(a),
{
    lemma_inverse(a);
    assert(fmul(a, frob_product(a, 1, 128)) == fone());
    let z = finv(a);
    assert(fmul(a, z) == fone());
    lemma_fmul_comm(a, z);
    if fmul(a, y) == fone() {
        lemma_fmul_assoc(z, a, y);
        lemma_fmul_one(z);
        lemma_fmul_one(y);
    }
}

/// A product is zero only where a factor is.
pub proof fn lemma_no_zero_divisors(a: F128, b: F128)
    requires
        fmul(a, b) == fzero(),
    ensures
        a == fzero() || b == fzero(),
{
    if a != fzero() {
        lemma_finv(a, b);
        lemma_fmul_assoc(finv(a), a, b);
        lemma_fmul_one(b);
        lemma_fmul_zero(finv(a));
    }
}

impl F128 {
    /// The multiplicative inverse; zero for zero.
    pub fn inv(self) -> (r: F128)
        ensures
            r == finv(self),
    {
        let mut cur = self;
        let mut acc = F128::one();
        let mut k: u64 = 1;
        while k < 128
            invariant
                1 <= k <= 128,
                cur == frob(self, k - 1),
                acc == frob_product(self, 1, k as int),
            decreases 128 - k,
        {
            cur = cur * cur;
            acc = acc * cur;
            k = k + 1;
        }
        proof {
            if self == fzero() {
                lemma_frob_zero(1);
                lemma_product_of_zero(127);
            } else {
                lemma_inverse(self);
                lemma_finv(self, acc);
            }
        }
        acc
    }
}

proof fn lemma_frob_zero(k: int)
    ensures
        frob(fzero(), k) == fzero(),
    decreases k,
{
    if k > 0 {
        lemma_frob_zero(k - 1);
        lemma_fmul_zero(fzero());
    }
}

proof fn lemma_product_of_zero(k: int)
    requires
        1 <= k,
    ensures
        frob_product(fzero(), 1, k + 1) == fzero(),
{
    lemma_frob_zero(k);
    lemma_fmul_zero(frob_product(fzero(), 1, k));
}

} // verus!
