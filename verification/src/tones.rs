//! The two quantisations of a table: from a shade index to an 8-bit channel
//! value and from an 8-bit channel value back to a shade index.
//!
//! Both are rounded floating-point scalings (`round(i * 255 / (n - 1))` and
//! `round(v * (n - 1) / 255)` in single precision); they are computed outside
//! this crate and handed in as tables, so that everything placed on top of
//! them is exact.
use vstd::prelude::*;
use crate::layout::{shades, lut_side, side_fits_u32};

verus! {

/// The quantisation tables of one table level.
pub struct ToneScale {
    level: u32,
    to_byte: Vec<u8>,
    to_index: Vec<u32>,
}

/// Whether tables of the given lengths and contents describe a level: the
/// forward table has one entry per shade, the backward one has an entry per
/// byte value and names only existing shades.
pub open spec fn tables_fit(level: int, to_byte: Seq<u8>, to_index: Seq<u32>) -> bool {
    &&& lut_side(level) <= u32::MAX
    &&& to_byte.len() == shades(level)
    &&& to_index.len() == 256
    &&& level >= 1 ==> forall|v: int| 0 <= v < 256 ==> #[trigger] to_index[v] < shades(level)
}

impl ToneScale {
    /// The level these tables belong to.
    pub closed spec fn spec_level(self) -> int {
        self.level as int
    }

    /// Channel value of shade `i`.
    pub closed spec fn byte_of(self, i: int) -> u8 {
        self.to_byte@[i]
    }

    /// Shade index of channel value `v`.
    pub closed spec fn index_of(self, v: int) -> int {
        self.to_index@[v] as int
    }

    /// The tables are well formed for their level.
    pub closed spec fn wf(self) -> bool {
        tables_fit(self.level as int, self.to_byte@, self.to_index@)
    }

    /// Every shade survives a trip to a byte value and back.
    pub open spec fn round_trips(self) -> bool {
        forall|i: int| 0 <= i < shades(self.spec_level()) ==> self.index_of(#[trigger] self.byte_of(i) as int) == i
    }

    /// Shade `i` is stored as a byte within half a step of the exact scaling
    /// `i * 255 / (n - 1)`, where `n` is the number of shades.
    pub open spec fn byte_near(self, i: int) -> bool {
        let m = shades(self.spec_level()) - 1;
        -m <= 2 * m * (self.byte_of(i) as int) - 510 * i <= m
    }

    /// Byte value `v` is mapped to a shade within half a step of the exact
    /// scaling `v * (n - 1) / 255`.
    pub open spec fn index_near(self, v: int) -> bool {
        let m = shades(self.spec_level()) - 1;
        -255 <= 510 * self.index_of(v) - 2 * v * m <= 255
    }

    /// Both tables round to a nearest integer (ties either way), as the
    /// rounded scalings `round(i * 255 / (n - 1))` and `round(v * (n - 1) / 255)` do.
    pub open spec fn rounds_to_nearest(self) -> bool {
        &&& self.spec_level() >= 1
        &&& forall|i: int| 0 <= i < shades(self.spec_level()) ==> #[trigger] self.byte_near(i)
        &&& forall|v: int| 0 <= v < 256 ==> #[trigger] self.index_near(v)
    }

    /// Law: tables that round to nearest survive the round trip shade ->
    /// byte -> shade whenever there are at most 256 shades (level 16 or less).
    pub proof fn lemma_nearest_round_trips(self)
        requires
            self.wf(),
            self.rounds_to_nearest(),
            self.spec_level() <= 16,
        ensures
            self.round_trips(),
    {
        let l = self.spec_level();
        let m = shades(l) - 1;
        assert(0 <= m <= 255) by (nonlinear_arith)
            requires
                1 <= l <= 16,
                m == l * l - 1,
        ;
        assert forall|i: int| 0 <= i < shades(l) implies self.index_of(#[trigger] self.byte_of(i) as int) == i by {
            let q = self.byte_of(i) as int;
            let d = self.index_of(q);
            assert(self.byte_near(i));
            assert(self.index_near(q));
            assert(2 * m * q == 2 * q * m) by (nonlinear_arith);
            if m == 255 {
                assert(q == i) by (nonlinear_arith)
                    requires
                        -m <= 2 * m * q - 510 * i <= m,
                        m == 255,
                ;
            }
            assert(d == i) by (nonlinear_arith)
                requires
                    -m <= 2 * m * q - 510 * i <= m,
                    -255 <= 510 * d - 2 * q * m <= 255,
                    2 * m * q == 2 * q * m,
                    0 <= m <= 255,
                    m == 255 ==> q == i,
            ;
        }
    }

    /// Whether the tables round to nearest.
    pub fn is_nearest_rounding(&self) -> (near: bool)
        requires
            self.wf(),
        ensures
            near == self.rounds_to_nearest(),
    {
        if self.level == 0 {
            return false;
        }
        let l = self.level;
        proof {
            assert(l as int * l <= 0xffff_ffff && l as int * l >= 1) by (nonlinear_arith)
                requires
                    l as int * l * l <= 0xffff_ffff,
                    l >= 1,
            ;
        }
        let n: u32 = l * l;
        let m: u64 = (n - 1) as u64;
        let mut i: u32 = 0;
        while i < n
            invariant
                i <= n,
                self.wf(),
                n == shades(self.spec_level()),
                m == n - 1,
                n <= 0xffff_ffff,
                forall|j: int| 0 <= j < i ==> #[trigger] self.byte_near(j),
            decreases n - i,
        {
            let b = self.to_byte[i as usize] as u64;
            proof {
                assert(2 * m * b <= 2 * 0xffff_ffffu64 * 255) by (nonlinear_arith)
                    requires
                        m <= 0xffff_ffff,
                        b <= 255,
                ;
            }
            let lhs = 2 * m * b;
            let rhs = 510 * (i as u64);
            if lhs + m < rhs || rhs + m < lhs {
                assert(!self.byte_near(i as int));
                return false;
            }
            i = i + 1;
        }
        let mut v: usize = 0;
        while v < 256
            invariant
                v <= 256,
                self.wf(),
                self.spec_level() >= 1,
                n == shades(self.spec_level()),
                m == n - 1,
                n <= 0xffff_ffff,
                forall|j: int| 0 <= j < shades(self.spec_level()) ==> #[trigger] self.byte_near(j),
                forall|w: int| 0 <= w < v ==> #[trigger] self.index_near(w),
            decreases 256 - v,
        {
            let d = self.to_index[v] as u64;
            assert(self.index_of(v as int) < n);
            proof {
                assert(2 * (v as u64) * m <= 2 * 255 * 0xffff_ffffu64) by (nonlinear_arith)
                    requires
                        m <= 0xffff_ffff,
                        v <= 255,
                ;
            }
            let lhs = 510 * d;
            let rhs = 2 * (v as u64) * m;
            if lhs + 255 < rhs || rhs + 255 < lhs {
                assert(!self.index_near(v as int));
                return false;
            }
            v = v + 1;
        }
        true
    }

    /// Facts that follow from well-formedness.
    pub proof fn lemma_wf(self)
        requires
            self.wf(),
        ensures
            lut_side(self.spec_level()) <= u32::MAX,
            self.spec_level() >= 0,
            self.spec_level() >= 1 ==> forall|v: int| 0 <= v < 256 ==> 0 <= #[trigger] self.index_of(v) < shades(self.spec_level()),
    {
    }

    /// Builds the tables of a level, or `None` when they do not fit it.
    pub fn from_tables(level: u32, to_byte: Vec<u8>, to_index: Vec<u32>) -> (res: Option<ToneScale>)
        ensures
            res is Some <==> tables_fit(level as int, to_byte@, to_index@),
            res matches Some(t) ==> {
                &&& t.wf()
                &&& t.spec_level() == level
                &&& forall|i: int| 0 <= i < shades(level as int) ==> #[trigger] t.byte_of(i) == to_byte@[i]
                &&& forall|v: int| 0 <= v < 256 ==> #[trigger] t.index_of(v) == to_index@[v]
            },
    {
        if !side_fits_u32(level) {
            return None;
        }
        assert(level as int * level <= 0xffff_ffff) by (nonlinear_arith)
            requires
                level as int * level * level <= 0xffff_ffff,
        ;
        let n: u32 = level * level;
        if to_byte.len() != n as usize || to_index.len() != 256 {
            return None;
        }
        if level >= 1 {
            let mut v: usize = 0;
            while v < 256
                invariant
                    0 <= v <= 256,
                    level >= 1,
                    to_index@.len() == 256,
                    n == shades(level as int),
                    forall|w: int| 0 <= w < v ==> #[trigger] to_index@[w] < n,
                decreases 256 - v,
            {
                if to_index[v] >= n {
                    assert(to_index@[v as int] >= shades(level as int));
                    return None;
                }
                v = v + 1;
            }
        }
        Some(ToneScale { level, to_byte, to_index })
    }

    /// The level these tables belong to.
    pub fn level(&self) -> (l: u32)
        ensures
            l == self.spec_level(),
    {
        self.level
    }

    /// Channel value of shade `i`.
    pub fn byte(&self, i: u32) -> (v: u8)
        requires
            self.wf(),
            i < shades(self.spec_level()),
        ensures
            v == self.byte_of(i as int),
    {
        self.to_byte[i as usize]
    }

    /// Shade index of channel value `v`.
    pub fn index(&self, v: u8) -> (i: u32)
        requires
            self.wf(),
        ensures
            i == self.index_of(v as int),
    {
        self.to_index[v as usize]
    }
}

} // verus!
