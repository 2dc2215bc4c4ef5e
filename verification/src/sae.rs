//! The central types: encoder and decoder weights, sparse features, and the
//! [`Sae`] that ties them together.

use vstd::prelude::*;
use vstd::slice::slice_to_vec;

use crate::bits::{total, yields, FloatOp, ZERO};
use crate::config::{NormalizeMode, SaeConfig};
use crate::error::{length_mismatch, ErrorView, SaeError};
use crate::index::{at, lemma_cell, lemma_row, lemma_store, row};
use crate::kernels::decoder::{self, decodable, decodes};
use crate::kernels::encoder::{self, encodes};
use crate::kernels::gemm::pack::{
    packed, packed_len, packed_offset, packed_size, panels, repack,
};
use crate::kernels::gemm::{DEFAULT_M_C, DEFAULT_M_R};
use crate::kernels::topk::TopkFn;
use crate::kernels::{backend_m_r, Backend};
use crate::normalize::{self, normalizes};
use crate::sparsify::{
    active_features_are_sound, extends, ids, lemma_extends_empty, lists, row_result, rows_read_back,
    sparsified_is_decodable, tile_result, Sparsifier, TopKScratch,
};

verus! {

/// How `w_enc` is laid out in memory.
#[derive(Debug, Clone, Copy, PartialEq, Eq, Structural)]
pub enum WeightLayout {
    /// `[d_sae, d_in]` row-major.
    RowMajor,
    /// Panels of `m_r` features, see [`crate::kernels::gemm::pack`].
    PackedPanels { m_r: usize },
}

/// Encoder side of an SAE.
///
/// In the row-major layout `w_enc` is `[d_sae, d_in]`. Each row is one
/// feature's encoder direction. This is the transpose of the math convention
/// (`pre_acts = x @ W_math` where `W_math: [d_in, d_sae]`), chosen so the inner
/// loop strides through `d_in` contiguously per output feature.
#[derive(Debug)]
pub struct EncoderWeights {
    pub w_enc: Vec<u32>,
    pub b_enc: Vec<u32>,
    pub d_in: usize,
    pub d_sae: usize,
    pub layout: WeightLayout,
}

impl EncoderWeights {
    /// The number of cells that `w_enc` takes in its layout.
    pub open spec fn size(&self) -> int {
        match self.layout {
            WeightLayout::RowMajor => self.d_sae * self.d_in,
            WeightLayout::PackedPanels { m_r } => packed_size(
                self.d_sae as int,
                self.d_in as int,
                m_r as int,
            ),
        }
    }

    /// The buffers have the sizes that the shape and the layout give them.
    pub open spec fn wf(&self) -> bool {
        &&& self.w_enc@.len() == self.size()
        &&& self.b_enc@.len() == self.d_sae
        &&& self.layout matches WeightLayout::PackedPanels { m_r } ==> m_r > 0
    }

    /// The weight of feature `f` on input `k`.
    pub open spec fn weight(&self, f: int, k: int) -> u32 {
        match self.layout {
            WeightLayout::RowMajor => self.w_enc@[f * self.d_in + k],
            WeightLayout::PackedPanels { m_r } => self.w_enc@[packed_offset(
                self.d_in as int,
                m_r as int,
                f,
                k,
            )],
        }
    }

    /// The encoder direction of feature `f`.
    pub open spec fn direction(&self, f: int) -> Seq<u32> {
        Seq::new(self.d_in as nat, |k: int| self.weight(f, k))
    }
}

/// Decoder side of an SAE.
///
/// `w_dec` is `[d_sae, d_in]` row-major. Each row is one feature's decoder
/// direction: sparse decode gathers rows by index and accumulates them scaled
/// by their feature values.
#[derive(Debug)]
pub struct DecoderWeights {
    pub w_dec: Vec<u32>,
    pub b_dec: Vec<u32>,
    pub d_in: usize,
    pub d_sae: usize,
}

impl DecoderWeights {
    /// The buffers have the sizes that the shape gives them.
    pub open spec fn wf(&self) -> bool {
        &&& self.w_dec@.len() == self.d_sae * self.d_in
        &&& self.b_dec@.len() == self.d_in
    }
}

/// Sparse encoder output across a batch of inputs.
///
/// CSR-style: `indices[row_offsets[i]..row_offsets[i+1]]` are the active
/// feature ids for batch row `i`, with corresponding values in `values`.
#[derive(Debug, Clone)]
pub struct SparseOut {
    pub indices: Vec<u32>,
    pub values: Vec<u32>,
    /// Cumulative nnz across rows, length = batch_size + 1.
    pub row_offsets: Vec<u32>,
    pub d_sae: u32,
}

impl SparseOut {
    /// The number of rows.
    pub open spec fn rows(&self) -> int {
        if self.row_offsets@.len() == 0 {
            0
        } else {
            self.row_offsets@.len() - 1
        }
    }

    /// Pair `k` belongs to row `b`.
    pub open spec fn spans(&self, b: int, k: int) -> bool {
        self.row_offsets@[b] <= k < self.row_offsets@[b + 1]
    }

    /// The active feature ids of row `b`.
    pub open spec fn features(&self, b: int) -> Seq<u32> {
        if self.row_offsets@[b] < self.row_offsets@[b + 1] {
            self.indices@.subrange(self.row_offsets@[b] as int, self.row_offsets@[b + 1] as int)
        } else {
            Seq::empty()
        }
    }

    /// The values of the active features of row `b`.
    pub open spec fn activations(&self, b: int) -> Seq<u32> {
        if self.row_offsets@[b] < self.row_offsets@[b + 1] {
            self.values@.subrange(self.row_offsets@[b] as int, self.row_offsets@[b + 1] as int)
        } else {
            Seq::empty()
        }
    }

    /// The CSR invariant: offsets start at zero, never fall, and end where the
    /// pairs end.
    pub open spec fn wf(&self) -> bool {
        &&& self.row_offsets@.len() > 0
        &&& self.row_offsets@[0] == 0
        &&& forall|a: int, b: int|
            0 <= a <= b < self.row_offsets@.len() ==> self.row_offsets@[a] <= self.row_offsets@[b]
        &&& self.row_offsets@.last() == self.indices@.len()
        &&& self.values@.len() == self.indices@.len()
    }

    pub fn new(d_sae: u32) -> (res: Self)
        ensures
            res.indices@ == Seq::<u32>::empty(),
            res.values@ == Seq::<u32>::empty(),
            res.row_offsets@ == seq![0u32],
            res.d_sae == d_sae,
            res.wf(),
    {
        let res = SparseOut {
            indices: Vec::new(),
            values: Vec::new(),
            row_offsets: vec![0],
            d_sae,
        };
        assert(res.row_offsets@ =~= seq![0u32]);
        res
    }

    /// Reset to an empty (zero-row) state, keeping allocated capacity.
    pub fn clear(&mut self)
        ensures
            final(self).indices@ == Seq::<u32>::empty(),
            final(self).values@ == Seq::<u32>::empty(),
            final(self).row_offsets@ == seq![0u32],
            final(self).d_sae == old(self).d_sae,
            final(self).wf(),
    {
        self.indices.clear();
        self.values.clear();
        self.row_offsets.clear();
        self.row_offsets.push(0);
        assert(self.row_offsets@ =~= seq![0u32]);
    }

    pub fn batch_size(&self) -> (res: usize)
        ensures
            res == self.rows(),
            self.row_offsets@.len() == 0 ==> res == 0,
            self.row_offsets@.len() > 0 ==> res == self.row_offsets@.len() - 1,
    {
        if self.row_offsets.len() == 0 {
            0
        } else {
            self.row_offsets.len() - 1
        }
    }

    pub fn nnz_in_row(&self, row: usize) -> (res: usize)
        requires
            row + 1 < self.row_offsets.len(),
            self.row_offsets@[row as int] <= self.row_offsets@[row + 1],
        ensures
            res == self.row_offsets@[row + 1] - self.row_offsets@[row as int],
    {
        (self.row_offsets[row + 1] - self.row_offsets[row]) as usize
    }

    pub fn row_indices(&self, row: usize) -> (res: &[u32])
        requires
            row + 1 < self.row_offsets.len(),
            self.row_offsets@[row as int] <= self.row_offsets@[row + 1] <= self.indices@.len(),
        ensures
            res@ == self.indices@.subrange(
                self.row_offsets@[row as int] as int,
                self.row_offsets@[row + 1] as int,
            ),
    {
        let s: usize = self.row_offsets[row] as usize;
        let e: usize = self.row_offsets[row + 1] as usize;
        vstd::slice::slice_subrange(self.indices.as_slice(), s, e)
    }

    pub fn row_values(&self, row: usize) -> (res: &[u32])
        requires
            row + 1 < self.row_offsets.len(),
            self.row_offsets@[row as int] <= self.row_offsets@[row + 1] <= self.values@.len(),
        ensures
            res@ == self.values@.subrange(
                self.row_offsets@[row as int] as int,
                self.row_offsets@[row + 1] as int,
            ),
    {
        let s: usize = self.row_offsets[row] as usize;
        let e: usize = self.row_offsets[row + 1] as usize;
        vstd::slice::slice_subrange(self.values.as_slice(), s, e)
    }

    /// Finalize the current row after pushing its (index, value) pairs. Must be
    /// called once per row, even if the row has zero nonzeros.
    pub fn finish_row(&mut self)
        ensures
            final(self).row_offsets@ == old(self).row_offsets@.push(old(self).indices@.len() as u32),
            final(self).indices@ == old(self).indices@,
            final(self).values@ == old(self).values@,
            final(self).d_sae == old(self).d_sae,
    {
        self.row_offsets.push(self.indices.len() as u32);
    }
}

/// A loaded Sparse Autoencoder, ready for inference.
#[derive(Debug)]
pub struct Sae {
    pub cfg: SaeConfig,
    pub enc: EncoderWeights,
    pub dec: DecoderWeights,
    pub sparsifier: Sparsifier,
    /// The encoder kernel.
    pub backend: Backend,
    /// The TopK implementation.
    pub topk: TopkFn,
}

/// The encoder and the decoder have the shape that the configuration gives them.
pub open spec fn same_shape(cfg: SaeConfig, enc: EncoderWeights, dec: DecoderWeights) -> bool {
    &&& enc.d_in == cfg.d_in
    &&& enc.d_sae == cfg.d_sae
    &&& dec.d_in == cfg.d_in
    &&& dec.d_sae == cfg.d_sae
}

/// The first thing that keeps parts from fitting together, if anything does.
pub open spec fn parts_error(cfg: SaeConfig, enc: EncoderWeights, dec: DecoderWeights) -> Option<
    ErrorView,
> {
    if enc.d_in != cfg.d_in || enc.d_sae != cfg.d_sae {
        Some(
            ErrorView::ShapeMismatch {
                name: "encoder"@,
                expected: seq![cfg.d_sae, cfg.d_in],
                got: seq![enc.d_sae, enc.d_in],
            },
        )
    } else if dec.d_in != cfg.d_in || dec.d_sae != cfg.d_sae {
        Some(
            ErrorView::ShapeMismatch {
                name: "decoder"@,
                expected: seq![cfg.d_sae, cfg.d_in],
                got: seq![dec.d_sae, dec.d_in],
            },
        )
    } else {
        lengths_error(
            cfg,
            enc.size(),
            enc.w_enc@.len() as int,
            dec.w_dec@.len() as int,
            enc.b_enc@.len() as int,
            dec.b_dec@.len() as int,
        )
    }
}

/// The first buffer that does not have the length that it should have, if any:
/// the encoder's matrix should have `size` cells.
pub open spec fn lengths_error(
    cfg: SaeConfig,
    size: int,
    w_enc: int,
    w_dec: int,
    b_enc: int,
    b_dec: int,
) -> Option<ErrorView> {
    if w_enc != size {
        Some(length_mismatch("w_enc.len"@, size, w_enc))
    } else if w_dec != cfg.d_sae * cfg.d_in {
        Some(length_mismatch("w_dec.len"@, cfg.d_sae * cfg.d_in, w_dec))
    } else if b_enc != cfg.d_sae {
        Some(length_mismatch("b_enc"@, cfg.d_sae as int, b_enc))
    } else if b_dec != cfg.d_in {
        Some(length_mismatch("b_dec"@, cfg.d_in as int, b_dec))
    } else {
        None
    }
}

/// The sizes that [`Sae::from_parts`] computes can be held in a `usize`.
pub open spec fn countable(cfg: SaeConfig, enc: EncoderWeights) -> bool {
    &&& cfg.d_sae * cfg.d_in <= usize::MAX
    &&& enc.layout matches WeightLayout::PackedPanels { m_r } ==> {
        &&& m_r > 0
        &&& panels(enc.d_sae as int, m_r as int) * m_r <= usize::MAX
        &&& packed_size(enc.d_sae as int, enc.d_in as int, m_r as int) <= usize::MAX
    }
}

/// `y` is the batch `x` with the decoder bias subtracted from every row.
pub open spec fn shifted<F: Fn(FloatOp) -> u32>(
    unit: F,
    b_dec: Seq<u32>,
    batch: int,
    x: Seq<u32>,
    y: Seq<u32>,
) -> bool {
    let d_in = b_dec.len() as int;
    &&& y.len() == x.len()
    &&& forall|b: int, j: int|
        0 <= b < batch && 0 <= j < d_in ==> yields(
            unit,
            FloatOp::Sub(at(x, d_in, b, j), b_dec[j]),
            #[trigger] at(y, d_in, b, j),
        )
}

impl Sae {
    /// The parts fit together.
    pub open spec fn wf(&self) -> bool {
        &&& self.enc.wf()
        &&& self.dec.wf()
        &&& same_shape(self.cfg, self.enc, self.dec)
    }

    /// `y` is the batch `x` as the encoder sees it: normalized, then, if the
    /// configuration asks for it, with the decoder bias subtracted.
    pub open spec fn prepares<F: Fn(FloatOp) -> u32>(
        &self,
        unit: F,
        x: Seq<u32>,
        batch: int,
        y: Seq<u32>,
    ) -> bool {
        exists|mid: Seq<u32>| #[trigger]
            normalizes(
                unit,
                self.cfg.normalize_activations,
                x,
                batch,
                self.cfg.d_in as int,
                mid,
            ) && if self.cfg.apply_b_dec_to_input {
                shifted(unit, self.dec.b_dec@, batch, mid, y)
            } else {
                y == mid
            }
    }

    /// `rows` are the active features of the batch `x`: the input is prepared
    /// (`prep`), encoded (`pre`), and sparsified (which leaves `post`).
    pub open spec fn activates<F: Fn(FloatOp) -> u32>(
        &self,
        unit: F,
        x: Seq<u32>,
        batch: int,
        prep: Seq<u32>,
        pre: Seq<u32>,
        post: Seq<u32>,
        rows: Seq<Seq<(u32, u32)>>,
    ) -> bool {
        &&& self.prepares(unit, x, batch, prep)
        &&& encodes(unit, self.backend, self.enc, prep, batch, pre)
        &&& tile_result(
            unit,
            self.sparsifier,
            self.topk,
            self.cfg.d_sae as int,
            batch,
            pre,
            post,
            rows,
        )
    }

    /// `out` holds the active features of the batch `x`.
    pub open spec fn features_of<F: Fn(FloatOp) -> u32>(
        &self,
        unit: F,
        x: Seq<u32>,
        batch: int,
        out: SparseOut,
    ) -> bool {
        &&& out.d_sae == self.cfg.d_sae
        &&& exists|
            prep: Seq<u32>,
            pre: Seq<u32>,
            post: Seq<u32>,
            rows: Seq<Seq<(u32, u32)>>,
        | #[trigger]
            self.activates(unit, x, batch, prep, pre, post, rows) && lists(rows, out)
    }

    /// Construct directly from already-loaded parts. Used by loaders and tests.
    ///
    /// The TopK implementation is the heap; see [`Sae::with_topk`].
    pub fn from_parts(
        cfg: SaeConfig,
        enc: EncoderWeights,
        dec: DecoderWeights,
        sparsifier: Sparsifier,
        backend: Backend,
    ) -> (res: Result<Sae, SaeError>)
        requires
            same_shape(cfg, enc, dec) ==> countable(cfg, enc),
        ensures
            match res {
                Ok(sae) => {
                    &&& parts_error(cfg, enc, dec) is None
                    &&& sae.cfg == cfg
                    &&& sae.enc == enc
                    &&& sae.dec == dec
                    &&& sae.sparsifier == sparsifier
                    &&& sae.backend == backend
                    &&& sae.topk is Heap
                    &&& sae.wf()
                },
                Err(e) => parts_error(cfg, enc, dec) == Some(e@),
            },
            res is Ok <==> {
                &&& enc.d_in == cfg.d_in && enc.d_sae == cfg.d_sae
                &&& dec.d_in == cfg.d_in && dec.d_sae == cfg.d_sae
                &&& enc.w_enc@.len() == (match enc.layout {
                    WeightLayout::RowMajor => cfg.d_sae * cfg.d_in,
                    WeightLayout::PackedPanels { m_r } => ((cfg.d_sae + m_r - 1) / m_r as int) * m_r
                        * cfg.d_in,
                })
                &&& dec.w_dec@.len() == cfg.d_sae * cfg.d_in
                &&& enc.b_enc@.len() == cfg.d_sae
                &&& dec.b_dec@.len() == cfg.d_in
            },
    {
        if enc.d_in != cfg.d_in || enc.d_sae != cfg.d_sae {
            return Err(SaeError::shape("encoder", cfg.d_sae, cfg.d_in, enc.d_sae, enc.d_in));
        }
        if dec.d_in != cfg.d_in || dec.d_sae != cfg.d_sae {
            return Err(SaeError::shape("decoder", cfg.d_sae, cfg.d_in, dec.d_sae, dec.d_in));
        }
        let w_len: usize = match enc.layout {
            WeightLayout::RowMajor => cfg.d_sae * cfg.d_in,
            WeightLayout::PackedPanels { m_r } => packed_len(enc.d_sae, enc.d_in, m_r),
        };
        if enc.w_enc.len() != w_len {
            return Err(SaeError::length("w_enc.len", w_len, enc.w_enc.len()));
        }
        if dec.w_dec.len() != cfg.d_sae * cfg.d_in {
            return Err(SaeError::length("w_dec.len", cfg.d_sae * cfg.d_in, dec.w_dec.len()));
        }
        if enc.b_enc.len() != cfg.d_sae {
            return Err(SaeError::length("b_enc", cfg.d_sae, enc.b_enc.len()));
        }
        if dec.b_dec.len() != cfg.d_in {
            return Err(SaeError::length("b_dec", cfg.d_in, dec.b_dec.len()));
        }
        Ok(Sae { cfg, enc, dec, sparsifier, backend, topk: TopkFn::Heap })
    }

    /// Override the backend.
    pub fn with_backend(self, backend: Backend) -> (res: Sae)
        ensures
            res == (Sae { backend, ..self }),
    {
        let mut res = self;
        res.backend = backend;
        res
    }

    /// Override the TopK implementation.
    pub fn with_topk(self, topk: TopkFn) -> (res: Sae)
        ensures
            res == (Sae { topk, ..self }),
    {
        let mut res = self;
        res.topk = topk;
        res
    }

    /// Pack the encoder matrix into the panels of the tiled kernels. An encoder
    /// that is packed already stays as it is.
    pub fn repacked(self) -> (res: Sae)
        requires
            self.wf(),
            panels(self.cfg.d_sae as int, DEFAULT_M_R as int) * DEFAULT_M_R <= usize::MAX,
            packed_size(self.cfg.d_sae as int, self.cfg.d_in as int, DEFAULT_M_R as int)
                <= usize::MAX,
        ensures
            res.wf(),
            res.cfg == self.cfg,
            res.dec == self.dec,
            res.sparsifier == self.sparsifier,
            res.backend == self.backend,
            res.topk == self.topk,
            res.enc.b_enc@ == self.enc.b_enc@,
            res.enc.layout is PackedPanels,
            self.enc.layout is PackedPanels ==> res.enc == self.enc,
            self.enc.layout is RowMajor ==> res.enc.layout == (WeightLayout::PackedPanels {
                m_r: DEFAULT_M_R,
            }) && res.enc.w_enc@ == packed(
                self.enc.w_enc@,
                self.enc.d_sae as int,
                self.enc.d_in as int,
                DEFAULT_M_R as int,
            ),
            forall|f: int|
                0 <= f < self.cfg.d_sae ==> #[trigger] res.enc.direction(f) == self.enc.direction(
                    f,
                ),
    {
        let mut res = self;
        if matches!(res.enc.layout, WeightLayout::RowMajor) {
            match backend_m_r(res.backend) {
                Some(m_r) => repack(&mut res.enc, m_r),
                None => {},
            }
        }
        res
    }

    /// Name of the currently selected kernel backend.
    pub fn backend_name(&self) -> (res: &'static str)
        ensures
            res@ == self.backend.spec_name(),
    {
        self.backend.name()
    }

    pub fn config(&self) -> (res: &SaeConfig)
        ensures
            *res == self.cfg,
    {
        &self.cfg
    }

    pub fn d_in(&self) -> (res: usize)
        ensures
            res == self.cfg.d_in,
    {
        self.cfg.d_in
    }

    pub fn d_sae(&self) -> (res: usize)
        ensures
            res == self.cfg.d_sae,
    {
        self.cfg.d_sae
    }

    pub fn encoder(&self) -> (res: &EncoderWeights)
        ensures
            *res == self.enc,
    {
        &self.enc
    }

    pub fn decoder(&self) -> (res: &DecoderWeights)
        ensures
            *res == self.dec,
    {
        &self.dec
    }

    pub fn sparsifier(&self) -> (res: &Sparsifier)
        ensures
            *res == self.sparsifier,
    {
        &self.sparsifier
    }

    /// The input as the encoder sees it: normalized, then shifted by the
    /// decoder bias, as far as the configuration asks for it.
    pub fn prepare_input<F: Fn(FloatOp) -> u32>(&self, x: &[u32], batch: usize, unit: &F) -> (y: Vec<
        u32,
    >)
        requires
            total(*unit),
            self.wf(),
            x@.len() == batch * self.cfg.d_in,
        ensures
            self.prepares(*unit, x@, batch as int, y@),
            y@.len() == x@.len(),
    {
        let d_in: usize = self.cfg.d_in;
        let x_len: usize = x.len();
        let mut y: Vec<u32> = slice_to_vec(x);
        if !matches!(self.cfg.normalize_activations, NormalizeMode::Off) {
            normalize::apply_in_place(
                self.cfg.normalize_activations,
                y.as_mut_slice(),
                batch,
                d_in,
                unit,
            );
        }
        let ghost mid = y@;
        assert(normalizes(
            *unit,
            self.cfg.normalize_activations,
            x@,
            batch as int,
            d_in as int,
            mid,
        ));
        if self.cfg.apply_b_dec_to_input {
            let mut b: usize = 0;
            while b < batch
                invariant
                    total(*unit),
                    self.wf(),
                    d_in == self.cfg.d_in,
                    y@.len() == x_len == batch * d_in,
                    mid.len() == x_len,
                    b <= batch,
                    forall|c: int, j: int|
                        0 <= c < batch && 0 <= j < d_in ==> if c < b {
                            yields(
                                *unit,
                                FloatOp::Sub(at(mid, d_in as int, c, j), self.dec.b_dec@[j]),
                                #[trigger] at(y@, d_in as int, c, j),
                            )
                        } else {
                            at(y@, d_in as int, c, j) == at(mid, d_in as int, c, j)
                        },
                decreases batch - b,
            {
                proof {
                    lemma_row(batch as int, d_in as int, b as int);
                }
                let base: usize = b * d_in;
                let mut j: usize = 0;
                while j < d_in
                    invariant
                        total(*unit),
                        self.wf(),
                        d_in == self.cfg.d_in,
                        y@.len() == x_len == batch * d_in,
                        mid.len() == x_len,
                        b < batch,
                        base == b * d_in,
                        j <= d_in,
                        forall|c: int, i: int|
                            0 <= c < batch && 0 <= i < d_in ==> if c < b || (c == b && i < j) {
                                yields(
                                    *unit,
                                    FloatOp::Sub(at(mid, d_in as int, c, i), self.dec.b_dec@[i]),
                                    #[trigger] at(y@, d_in as int, c, i),
                                )
                            } else {
                                at(y@, d_in as int, c, i) == at(mid, d_in as int, c, i)
                            },
                    decreases d_in - j,
                {
                    proof {
                        lemma_cell(batch as int, d_in as int, b as int, j as int);
                        assert(at(y@, d_in as int, b as int, j as int) == at(
                            mid,
                            d_in as int,
                            b as int,
                            j as int,
                        ));
                    }
                    let v: u32 = (*unit)(FloatOp::Sub(y[base + j], self.dec.b_dec[j]));
                    proof {
                        assert(yields(
                            *unit,
                            FloatOp::Sub(
                                at(mid, d_in as int, b as int, j as int),
                                self.dec.b_dec@[j as int],
                            ),
                            v,
                        ));
                        lemma_store(y@, batch as int, d_in as int, b as int, j as int, v);
                    }
                    y.set(base + j, v);
                    j += 1;
                }
                b += 1;
            }
            assert(shifted(*unit, self.dec.b_dec@, batch as int, mid, y@));
        }
        y
    }

    /// The pre-activations of a batch that [`Sae::prepare_input`] prepared.
    pub fn pre_activations<F: Fn(FloatOp) -> u32>(
        &self,
        prepared: &[u32],
        batch: usize,
        unit: &F,
    ) -> (pre: Vec<u32>)
        requires
            total(*unit),
            self.wf(),
            prepared@.len() == batch * self.cfg.d_in,
            batch * self.cfg.d_sae <= usize::MAX,
        ensures
            encodes(*unit, self.backend, self.enc, prepared@, batch as int, pre@),
    {
        let n: usize = batch * self.cfg.d_sae;
        let mut pre: Vec<u32> = zeros(n);
        encoder::encode_f32(
            self.backend,
            prepared,
            &self.enc,
            pre.as_mut_slice(),
            batch,
            DEFAULT_M_C,
            unit,
        );
        pre
    }

    /// Check that an input has the length of a batch.
    pub fn check_input(&self, len: usize, batch: usize) -> (res: Result<(), SaeError>)
        requires
            batch * self.cfg.d_in <= usize::MAX,
        ensures
            match res {
                Ok(_) => len == batch * self.cfg.d_in,
                Err(e) => {
                    &&& len != batch * self.cfg.d_in
                    &&& e@ == length_mismatch("x"@, batch * self.cfg.d_in, len as int)
                },
            },
    {
        if len != batch * self.cfg.d_in {
            return Err(SaeError::length("x", batch * self.cfg.d_in, len));
        }
        Ok(())
    }

    /// Encode a batch of activations into sparse features.
    ///
    /// `x` has length `batch * d_in`, row-major. `out` is cleared then filled.
    pub fn encode<F: Fn(FloatOp) -> u32>(
        &self,
        x: &[u32],
        batch: usize,
        out: &mut SparseOut,
        unit: &F,
    ) -> (res: Result<(), SaeError>)
        requires
            total(*unit),
            self.wf(),
            batch * self.cfg.d_in <= usize::MAX,
            x@.len() == batch * self.cfg.d_in ==> batch * self.cfg.d_sae <= usize::MAX
                && self.cfg.d_sae <= u32::MAX,
        ensures
            match res {
                Ok(_) => {
                    &&& x@.len() == batch * self.cfg.d_in
                    &&& self.features_of(*unit, x@, batch as int, *final(out))
                },
                Err(e) => {
                    &&& x@.len() != batch * self.cfg.d_in
                    &&& e@ == length_mismatch("x"@, batch * self.cfg.d_in, x@.len() as int)
                    &&& *final(out) == *old(out)
                },
            },
    {
        match self.check_input(x.len(), batch) {
            Ok(_) => {},
            Err(e) => {
                return Err(e);
            },
        }
        let prepared: Vec<u32> = self.prepare_input(x, batch, unit);
        let mut pre: Vec<u32> = self.pre_activations(prepared.as_slice(), batch, unit);
        let ghost pre_view = pre@;
        self.sparsify(pre.as_mut_slice(), batch, out, unit);
        proof {
            let rows = choose|rows: Seq<Seq<(u32, u32)>>| #[trigger]
                tile_result(
                    *unit,
                    self.sparsifier,
                    self.topk,
                    self.cfg.d_sae as int,
                    batch as int,
                    pre_view,
                    pre@,
                    rows,
                ) && lists(rows, *out);
            assert(self.activates(*unit, x@, batch as int, prepared@, pre_view, pre@, rows));
        }
        Ok(())
    }

    /// Clear `out` and fill it with the active features of a batch of
    /// pre-activations.
    pub fn sparsify<F: Fn(FloatOp) -> u32>(
        &self,
        pre: &mut [u32],
        batch: usize,
        out: &mut SparseOut,
        unit: &F,
    )
        requires
            total(*unit),
            old(pre)@.len() == batch * self.cfg.d_sae,
            self.cfg.d_sae <= u32::MAX,
        ensures
            final(out).d_sae == self.cfg.d_sae,
            exists|rows: Seq<Seq<(u32, u32)>>| #[trigger]
                tile_result(
                    *unit,
                    self.sparsifier,
                    self.topk,
                    self.cfg.d_sae as int,
                    batch as int,
                    old(pre)@,
                    final(pre)@,
                    rows,
                ) && lists(rows, *final(out)),
    {
        let ghost before = pre@;
        out.clear();
        out.d_sae = self.cfg.d_sae as u32;
        let ghost empty = *out;
        let mut scratch = TopKScratch::new();
        self.sparsifier.apply(pre, batch, self.cfg.d_sae, out, &mut scratch, self.topk, unit);
        proof {
            let rows = choose|rows: Seq<Seq<(u32, u32)>>| #[trigger]
                tile_result(
                    *unit,
                    self.sparsifier,
                    self.topk,
                    self.cfg.d_sae as int,
                    batch as int,
                    before,
                    pre@,
                    rows,
                ) && extends(empty, rows, *out);
            lemma_extends_empty(empty, rows, *out);
        }
    }

    /// Decode sparse features back into the activation space.
    ///
    /// `out` has length `z.batch_size() * d_in`, row-major.
    pub fn decode<F: Fn(FloatOp) -> u32>(&self, z: &SparseOut, out: &mut [u32], unit: &F) -> (res:
        Result<(), SaeError>)
        requires
            total(*unit),
            self.wf(),
            z.rows() * self.cfg.d_in <= usize::MAX,
            old(out)@.len() == z.rows() * self.cfg.d_in && z.d_sae == self.cfg.d_sae ==> decodable(
                *z,
                self.cfg.d_sae as int,
            ),
        ensures
            match res {
                Ok(_) => {
                    &&& old(out)@.len() == z.rows() * self.cfg.d_in
                    &&& z.d_sae == self.cfg.d_sae
                    &&& decodes(*unit, self.dec, *z, final(out)@)
                },
                Err(e) => {
                    &&& final(out)@ == old(out)@
                    &&& if old(out)@.len() != z.rows() * self.cfg.d_in {
                        e@ == length_mismatch(
                            "out"@,
                            z.rows() * self.cfg.d_in,
                            old(out)@.len() as int,
                        )
                    } else {
                        &&& z.d_sae != self.cfg.d_sae
                        &&& e@ == length_mismatch(
                            "z.d_sae"@,
                            self.cfg.d_sae as int,
                            z.d_sae as int,
                        )
                    }
                },
            },
    {
        let batch: usize = z.batch_size();
        let d_in: usize = self.cfg.d_in;
        if out.len() != batch * d_in {
            return Err(SaeError::length("out", batch * d_in, out.len()));
        }
        if z.d_sae as usize != self.cfg.d_sae {
            return Err(SaeError::length("z.d_sae", self.cfg.d_sae, z.d_sae as usize));
        }
        decoder::decode_sparse(z, &self.dec, out, unit);
        Ok(())
    }

    /// Encode then decode in one shot.
    pub fn reconstruct<F: Fn(FloatOp) -> u32>(
        &self,
        x: &[u32],
        batch: usize,
        out: &mut [u32],
        unit: &F,
    ) -> (res: Result<(), SaeError>)
        requires
            total(*unit),
            self.wf(),
            batch * self.cfg.d_in <= usize::MAX,
            x@.len() == batch * self.cfg.d_in ==> batch * self.cfg.d_sae <= usize::MAX
                && self.cfg.d_sae <= u32::MAX,
        ensures
            match res {
                Ok(_) => {
                    &&& x@.len() == batch * self.cfg.d_in
                    &&& old(out)@.len() == batch * self.cfg.d_in
                    &&& exists|z: SparseOut| #[trigger]
                        self.features_of(*unit, x@, batch as int, z) && decodes(
                            *unit,
                            self.dec,
                            z,
                            final(out)@,
                        )
                },
                Err(e) => {
                    &&& final(out)@ == old(out)@
                    &&& if x@.len() != batch * self.cfg.d_in {
                        e@ == length_mismatch("x"@, batch * self.cfg.d_in, x@.len() as int)
                    } else {
                        &&& old(out)@.len() != batch * self.cfg.d_in
                        &&& e@ == length_mismatch(
                            "out"@,
                            batch * self.cfg.d_in,
                            old(out)@.len() as int,
                        )
                    }
                },
            },
    {
        let mut z = SparseOut::new(self.cfg.d_sae as u32);
        match self.encode(x, batch, &mut z, unit) {
            Ok(_) => {},
            Err(e) => {
                return Err(e);
            },
        }
        proof {
            features_are_decodable(*self, *unit, x@, batch as int, z);
        }
        self.decode(&z, out, unit)
    }
}

/// What encoding gives can be decoded: it has one row per batch row, and every
/// feature that it lists exists.
pub proof fn features_are_decodable<F: Fn(FloatOp) -> u32>(
    sae: Sae,
    unit: F,
    x: Seq<u32>,
    batch: int,
    z: SparseOut,
)
    requires
        sae.cfg.d_sae <= u32::MAX,
        sae.enc.d_sae == sae.cfg.d_sae,
        0 <= batch,
        sae.features_of(unit, x, batch, z),
    ensures
        z.rows() == batch,
        decodable(z, sae.cfg.d_sae as int),
{
    let (prep, pre, post, rows) = choose|
        prep: Seq<u32>,
        pre: Seq<u32>,
        post: Seq<u32>,
        rows: Seq<Seq<(u32, u32)>>,
    | #[trigger]
        sae.activates(unit, x, batch, prep, pre, post, rows) && lists(rows, z);
    sparsified_is_decodable(
        unit,
        sae.sparsifier,
        sae.topk,
        sae.cfg.d_sae as int,
        batch,
        pre,
        post,
        rows,
        z,
    );
}

/// The sparse features of a batch satisfy the CSR invariant, as long as the pairs
/// can be counted in a `u32`: one row per batch row, and in every row the
/// features ascend without repetition and exist. TopK gives a row no more than
/// `k` features.
pub proof fn features_are_well_formed<F: Fn(FloatOp) -> u32>(
    sae: Sae,
    unit: F,
    x: Seq<u32>,
    batch: int,
    z: SparseOut,
    b: int,
)
    requires
        sae.cfg.d_sae <= u32::MAX,
        sae.enc.d_sae == sae.cfg.d_sae,
        sae.features_of(unit, x, batch, z),
        z.indices@.len() <= u32::MAX,
        0 <= b < batch,
    ensures
        z.wf(),
        z.rows() == batch,
        z.features(b).len() == z.activations(b).len(),
        forall|s: int, t: int|
            0 <= s < t < z.features(b).len() ==> (#[trigger] z.features(b)[s]) < (
            #[trigger] z.features(b)[t]),
        forall|t: int|
            0 <= t < z.features(b).len() ==> (#[trigger] z.features(b)[t]) < sae.cfg.d_sae,
        sae.sparsifier matches Sparsifier::TopK { k, .. } ==> z.features(b).len() <= k,
{
    let d_sae = sae.cfg.d_sae as int;
    let (prep, pre, post, rows) = choose|
        prep: Seq<u32>,
        pre: Seq<u32>,
        post: Seq<u32>,
        rows: Seq<Seq<(u32, u32)>>,
    | #[trigger]
        sae.activates(unit, x, batch, prep, pre, post, rows) && lists(rows, z);
    rows_read_back(rows, z);
    lemma_row(batch, d_sae, b);
    let pairs = rows[b];
    assert(z.features(b) == ids(pairs));
    assert(row_result(
        unit,
        sae.sparsifier,
        sae.topk,
        row(pre, d_sae, b),
        row(post, d_sae, b),
        pairs,
    ));
    active_features_are_sound(
        unit,
        sae.sparsifier,
        sae.topk,
        row(pre, d_sae, b),
        row(post, d_sae, b),
        pairs,
    );
    assert forall|s: int, t: int| 0 <= s < t < z.features(b).len() implies (
    #[trigger] z.features(b)[s]) < (#[trigger] z.features(b)[t]) by {
        assert(pairs[s].0 < pairs[t].0);
    }
    assert forall|t: int| 0 <= t < z.features(b).len() implies (#[trigger] z.features(b)[t]) < d_sae by {
        assert(pairs[t].0 < row(post, d_sae, b).len());
    }
}

/// What parts are refused for, in order: an encoder or a decoder of another shape, and then
/// a buffer of another length, each with what was expected and what was there.
pub proof fn parts_are_refused_for(cfg: SaeConfig, enc: EncoderWeights, dec: DecoderWeights)
    ensures
        ({
            let e = parts_error(cfg, enc, dec);
            let encoder = enc.d_in == cfg.d_in && enc.d_sae == cfg.d_sae;
            let decoder = dec.d_in == cfg.d_in && dec.d_sae == cfg.d_sae;
            let cells = match enc.layout {
                WeightLayout::RowMajor => cfg.d_sae * cfg.d_in,
                WeightLayout::PackedPanels { m_r } => ((cfg.d_sae + m_r - 1) / m_r as int) * m_r
                    * cfg.d_in,
            };
            let length = |name: Seq<char>, expected: int, got: nat|
                Some(
                    ErrorView::ShapeMismatch {
                        name,
                        expected: seq![expected as usize],
                        got: seq![got as usize],
                    },
                );
            let w_enc = enc.w_enc@.len() == cells;
            let w_dec = dec.w_dec@.len() == cfg.d_sae * cfg.d_in;
            let b_enc = enc.b_enc@.len() == cfg.d_sae;
            let b_dec = dec.b_dec@.len() == cfg.d_in;
            &&& !encoder ==> e == Some(
                ErrorView::ShapeMismatch {
                    name: "encoder"@,
                    expected: seq![cfg.d_sae, cfg.d_in],
                    got: seq![enc.d_sae, enc.d_in],
                },
            )
            &&& encoder && !decoder ==> e == Some(
                ErrorView::ShapeMismatch {
                    name: "decoder"@,
                    expected: seq![cfg.d_sae, cfg.d_in],
                    got: seq![dec.d_sae, dec.d_in],
                },
            )
            &&& encoder && decoder ==> {
                &&& !w_enc ==> e == length("w_enc.len"@, cells, enc.w_enc@.len())
                &&& w_enc && !w_dec ==> e == length(
                    "w_dec.len"@,
                    cfg.d_sae * cfg.d_in,
                    dec.w_dec@.len(),
                )
                &&& w_enc && w_dec && !b_enc ==> e == length(
                    "b_enc"@,
                    cfg.d_sae as int,
                    enc.b_enc@.len(),
                )
                &&& w_enc && w_dec && b_enc && !b_dec ==> e == length(
                    "b_dec"@,
                    cfg.d_in as int,
                    dec.b_dec@.len(),
                )
                &&& w_enc && w_dec && b_enc && b_dec ==> e is None
            }
        }),
{
}

/// A buffer of zeros.
fn zeros(n: usize) -> (v: Vec<u32>)
    ensures
        v@.len() == n,
        forall|p: int| 0 <= p < n ==> #[trigger] v@[p] == ZERO,
{
    let mut v: Vec<u32> = Vec::new();
    let mut i: usize = 0;
    while i < n
        invariant
            i <= n,
            v@.len() == i,
            forall|p: int| 0 <= p < i ==> #[trigger] v@[p] == ZERO,
        decreases n - i,
    {
        v.push(ZERO);
        i += 1;
    }
    v
}

/// The value of feature `f` among some pairs: that of the last pair that has
/// it, or zero.
pub open spec fn scattered(features: Seq<u32>, values: Seq<u32>, f: int) -> u32
    decreases features.len(),
{
    if features.len() == 0 {
        ZERO
    } else if features.last() == f {
        values.last()
    } else {
        scattered(features.drop_last(), values.drop_last(), f)
    }
}

/// In the dense form a feature has the value of the last pair that lists it, and zero
/// if no pair does.
pub proof fn dense_form_takes_the_last_value(features: Seq<u32>, values: Seq<u32>, f: int)
    requires
        features.len() == values.len(),
    ensures
        (forall|t: int| 0 <= t < features.len() ==> #[trigger] features[t] != f) ==> scattered(
            features,
            values,
            f,
        ) == 0,
        forall|t: int|
            0 <= t < features.len() && #[trigger] features[t] == f && (forall|u: int|
                t < u < features.len() ==> #[trigger] features[u] != f) ==> scattered(
                features,
                values,
                f,
            ) == values[t],
    decreases features.len(),
{
    if features.len() > 0 {
        let fs = features.drop_last();
        let vs = values.drop_last();
        let n = features.len() as int;
        dense_form_takes_the_last_value(fs, vs, f);
        if features[n - 1] != f {
            assert forall|t: int|
                0 <= t < n && #[trigger] features[t] == f && (forall|u: int|
                    t < u < n ==> #[trigger] features[u] != f) implies scattered(
                features,
                values,
                f,
            ) == values[t] by {
                assert(fs[t] == f);
                assert forall|u: int| t < u < fs.len() implies #[trigger] fs[u] != f by {
                    assert(features[u] != f);
                }
            }
            if forall|t: int| 0 <= t < n ==> #[trigger] features[t] != f {
                assert forall|t: int| 0 <= t < fs.len() implies #[trigger] fs[t] != f by {
                    assert(features[t] != f);
                }
            }
        } else {
            assert forall|t: int|
                0 <= t < n && #[trigger] features[t] == f && (forall|u: int|
                    t < u < n ==> #[trigger] features[u] != f) implies t == n - 1 by {
                if t < n - 1 {
                    assert(features[n - 1] != f);
                }
            }
        }
    }
}

/// A feature that is listed once has its listed value in the dense form.
pub proof fn dense_form_reads_back(features: Seq<u32>, values: Seq<u32>, t: int)
    requires
        features.len() == values.len(),
        forall|a: int, b: int| 0 <= a < b < features.len() ==> features[a] != features[b],
        0 <= t < features.len(),
    ensures
        scattered(features, values, features[t] as int) == values[t],
    decreases features.len(),
{
    let n = features.len() as int;
    if t < n - 1 {
        dense_form_reads_back(features.drop_last(), values.drop_last(), t);
        assert(features[t] != features[n - 1]);
    }
}

/// A feature that is not listed has zero in the dense form.
pub proof fn unlisted_features_are_zero(features: Seq<u32>, values: Seq<u32>, f: int)
    requires
        0 <= f <= u32::MAX,
        !features.contains(f as u32),
    ensures
        scattered(features, values, f) == ZERO,
    decreases features.len(),
{
    if features.len() > 0 {
        assert(features[features.len() - 1] != f as u32);
        assert(!features.drop_last().contains(f as u32)) by {
            if features.drop_last().contains(f as u32) {
                let s = choose|s: int|
                    0 <= s < features.len() - 1 && features.drop_last()[s] == f as u32;
                assert(features[s] == f as u32);
            }
        }
        unlisted_features_are_zero(features.drop_last(), values.drop_last(), f);
    }
}

impl SparseOut {
    /// Materialize as a dense `[batch, d_sae]` buffer. Expensive for large
    /// `d_sae`: prefer working with the CSR arrays directly.
    pub fn to_dense(&self) -> (dense: Vec<u32>)
        requires
            self.rows() * self.d_sae <= usize::MAX,
            decodable(*self, self.d_sae as int),
        ensures
            dense@.len() == self.rows() * self.d_sae,
            forall|b: int, f: int|
                0 <= b < self.rows() && 0 <= f < self.d_sae ==> #[trigger] at(
                    dense@,
                    self.d_sae as int,
                    b,
                    f,
                ) == scattered(self.features(b), self.activations(b), f),
    {
        let batch: usize = self.batch_size();
        let d_sae: usize = self.d_sae as usize;
        let n: usize = batch * d_sae;
        let mut dense: Vec<u32> = zeros(n);
        assert forall|c: int, g: int| 0 <= c < batch && 0 <= g < d_sae implies #[trigger] at(
            dense@,
            d_sae as int,
            c,
            g,
        ) == ZERO by {
            lemma_cell(batch as int, d_sae as int, c, g);
        }
        let mut b: usize = 0;
        while b < batch
            invariant
                batch == self.rows(),
                d_sae == self.d_sae,
                decodable(*self, d_sae as int),
                dense@.len() == n == batch * d_sae,
                b <= batch,
                forall|c: int, g: int|
                    0 <= c < batch && 0 <= g < d_sae ==> #[trigger] at(dense@, d_sae as int, c, g)
                        == (if c < b {
                        scattered(self.features(c), self.activations(c), g)
                    } else {
                        ZERO
                    }),
            decreases batch - b,
        {
            let s: usize = self.row_offsets[b] as usize;
            let e: usize = self.row_offsets[b + 1] as usize;
            let ghost features = self.features(b as int);
            let ghost values = self.activations(b as int);
            proof {
                if s < e {
                    assert(self.spans(b as int, e - 1));
                }
            }
            let mut k: usize = s;
            while k < e
                invariant
                    batch == self.rows(),
                    d_sae == self.d_sae,
                    decodable(*self, d_sae as int),
                    dense@.len() == n == batch * d_sae,
                    b < batch,
                    s == self.row_offsets@[b as int],
                    e == self.row_offsets@[b + 1],
                    s <= k,
                    s < e ==> k <= e <= self.indices@.len() && e <= self.values@.len(),
                    s >= e ==> k == s,
                    features == self.features(b as int),
                    values == self.activations(b as int),
                    features.len() == values.len() == (if s < e {
                        e - s
                    } else {
                        0
                    }),
                    forall|c: int, g: int|
                        0 <= c < batch && 0 <= g < d_sae ==> #[trigger] at(
                            dense@,
                            d_sae as int,
                            c,
                            g,
                        ) == (if c < b {
                            scattered(self.features(c), self.activations(c), g)
                        } else if c == b {
                            scattered(features.take(k - s), values.take(k - s), g)
                        } else {
                            ZERO
                        }),
                decreases e - k,
            {
                assert(self.spans(b as int, k as int));
                let f: usize = self.indices[k] as usize;
                let v: u32 = self.values[k];
                proof {
                    lemma_cell(batch as int, d_sae as int, b as int, f as int);
                    lemma_store(dense@, batch as int, d_sae as int, b as int, f as int, v);
                    let fs = features.take(k - s + 1);
                    let vs = values.take(k - s + 1);
                    assert(fs.drop_last() =~= features.take(k - s));
                    assert(vs.drop_last() =~= values.take(k - s));
                    assert(fs.last() == f && vs.last() == v);
                }
                dense.set(b * d_sae + f, v);
                k += 1;
            }
            proof {
                assert(features.take(k - s) =~= features);
                assert(values.take(k - s) =~= values);
            }
            b += 1;
        }
        dense
    }
}

} // verus!
