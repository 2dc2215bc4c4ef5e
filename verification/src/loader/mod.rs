//! Checkpoint loaders, and the choice of one from the filesystem layout.

use vstd::prelude::*;

use crate::config::SaeConfig;
use crate::error::{ErrorView, SaeError};
use crate::io::safetensors::{
    contents, f32_tensor, product, read_f32_tensor, read_view, sized, transpose, transposed,
    TensorRead, TensorView,
};
use crate::kernels::Backend;
use crate::sae::{DecoderWeights, EncoderWeights, Sae, WeightLayout};
use crate::sparsify::Sparsifier;
use crate::text::{lower, same_ignoring_case};

pub mod fields;
pub mod orientation;
pub mod raw;
pub mod saelens;
pub mod sparsify;

verus! {

/// What is known of a path, as far as the choice of a loader depends on it.
#[derive(Debug)]
pub struct Probe {
    /// The path is a directory.
    pub is_dir: bool,
    /// The directory has a `cfg.json`.
    pub has_cfg: bool,
    /// The weights file of the directory, or of the directory of the file, is that
    /// of a sparsify checkpoint (see [`sparsify::recognizes`]).
    pub is_sparsify: bool,
    /// The path is a file.
    pub is_file: bool,
    /// The extension of the file's name, where it has one.
    pub extension: Option<String>,
    /// The path has a parent.
    pub has_parent: bool,
}

/// A loader.
#[derive(Debug, Clone, Copy, PartialEq, Eq, Structural)]
pub enum Format {
    /// A SAELens directory: the path itself.
    SaelensDir,
    /// A SAELens directory: the parent of the path, which is its `cfg.json`.
    SaelensParent,
    /// A sparsify directory: the path itself.
    SparsifyDir,
    /// A sparsify directory: the parent of the path, which is its `cfg.json`.
    SparsifyParent,
    /// A `.sit` single file.
    Sit,
}

/// The file has the extension `ext`, up to ASCII case.
pub open spec fn has_extension(probe: Probe, ext: Seq<char>) -> bool {
    probe.extension matches Some(e) && lower(e@) == lower(ext)
}

/// The loader for a path, or why there is none.
pub open spec fn format_of(probe: Probe) -> Result<Format, Seq<char>> {
    if probe.is_dir {
        if probe.has_cfg && probe.is_sparsify {
            Ok(Format::SparsifyDir)
        } else if probe.has_cfg {
            Ok(Format::SaelensDir)
        } else {
            Err("directory does not contain cfg.json"@)
        }
    } else if probe.is_file {
        if has_extension(probe, "sit"@) {
            Ok(Format::Sit)
        } else if has_extension(probe, "json"@) && probe.has_parent && probe.is_sparsify {
            Ok(Format::SparsifyParent)
        } else if has_extension(probe, "json"@) && probe.has_parent {
            Ok(Format::SaelensParent)
        } else {
            Err("unrecognized file; pass the SAE directory, .sit file, or a cfg.json"@)
        }
    } else {
        Err("no such path"@)
    }
}

/// Whether the file has the extension `ext`, up to ASCII case.
fn extension_is(probe: &Probe, ext: &str) -> (res: bool)
    ensures
        res == has_extension(*probe, ext@),
{
    match &probe.extension {
        Some(e) => same_ignoring_case(e.as_str(), ext),
        None => false,
    }
}

/// Pick a loader for `path`. Supports:
/// - SAELens directory (`cfg.json` + `sae_weights.safetensors`).
/// - EleutherAI sparsify directory (`cfg.json` + `sae.safetensors`).
/// - `.sit` single file.
/// - the `cfg.json` of one of these directories.
pub fn detect(path: &str, probe: &Probe) -> (res: Result<Format, SaeError>)
    ensures
        match format_of(*probe) {
            Ok(format) => res matches Ok(f) && f == format,
            Err(reason) => res matches Err(e) && e@ == (ErrorView::InvalidCheckpoint {
                path: path@,
                reason,
            }),
        },
        probe.is_dir && probe.has_cfg && probe.is_sparsify ==> res == Ok::<Format, SaeError>(
            Format::SparsifyDir,
        ),
        res is Ok <==> {
            ||| probe.is_dir && probe.has_cfg
            ||| !probe.is_dir && probe.is_file && has_extension(*probe, "sit"@)
            ||| !probe.is_dir && probe.is_file && has_extension(*probe, "json"@) && probe.has_parent
        },
        res matches Ok(f) ==> {
            &&& f is SparsifyDir <==> probe.is_dir && probe.is_sparsify
            &&& f is SaelensDir <==> probe.is_dir && !probe.is_sparsify
            &&& f is Sit <==> !probe.is_dir && has_extension(*probe, "sit"@)
            &&& f is SparsifyParent <==> !probe.is_dir && !has_extension(*probe, "sit"@)
                && probe.is_sparsify
            &&& f is SaelensParent <==> !probe.is_dir && !has_extension(*probe, "sit"@)
                && !probe.is_sparsify
        },
{
    if probe.is_dir {
        if probe.has_cfg {
            if probe.is_sparsify {
                return Ok(Format::SparsifyDir);
            }
            return Ok(Format::SaelensDir);
        }
        return Err(SaeError::invalid(path, "directory does not contain cfg.json"));
    }
    if probe.is_file {
        if extension_is(probe, "sit") {
            return Ok(Format::Sit);
        }
        if extension_is(probe, "json") && probe.has_parent {
            if probe.is_sparsify {
                return Ok(Format::SparsifyParent);
            }
            return Ok(Format::SaelensParent);
        }
        return Err(
            SaeError::invalid(
                path,
                "unrecognized file; pass the SAE directory, .sit file, or a cfg.json",
            ),
        );
    }
    Err(SaeError::invalid(path, "no such path"))
}

/// The choice of the sparsify loader takes nothing from the SAELens loader: what
/// is recognized as a sparsify checkpoint does not load as a SAELens one, for want
/// of the encoder's matrix.
pub proof fn sparsify_is_no_saelens(raw: saelens::RawCfg, cfg_path: Seq<char>, weights: Seq<u8>)
    requires
        sparsify::is_sparsify(weights),
    ensures
        match saelens::config_of(raw, cfg_path) {
            Ok(_) => saelens::load_error(raw, cfg_path, weights) == Some(
                ErrorView::MissingTensor("W_enc"@),
            ),
            Err(e) => saelens::load_error(raw, cfg_path, weights) == Some(e),
        },
{
}

/// The first of two tensors that can be read; if none can, what is wrong with
/// the second.
pub open spec fn or_else(a: TensorView, b: TensorView) -> TensorView {
    match a {
        Ok(t) => Ok(t),
        Err(_) => b,
    }
}

/// Read the first of two tensors that can be read.
pub fn read_either(st: &safetensors::SafeTensors<'_>, a: &str, b: &str) -> (res: TensorRead)
    ensures
        read_view(res) == or_else(
            f32_tensor(contents(*st), a@),
            f32_tensor(contents(*st), b@),
        ),
        sized(res),
{
    match read_f32_tensor(st, a) {
        Ok(t) => Ok(t),
        Err(_) => read_f32_tensor(st, b),
    }
}

/// A one-dimensional tensor must have `n` elements.
pub open spec fn vector_of(shape: Seq<usize>, n: int, name: Seq<char>) -> Option<ErrorView> {
    if shape.len() == 1 && shape[0] == n {
        None
    } else {
        Some(ErrorView::ShapeMismatch { name, expected: seq![n as usize], got: shape })
    }
}

/// A weight matrix in the internal layout `[d_sae, d_in]`: as it is stored, or
/// transposed if it is stored as `[d_in, d_sae]`.
pub open spec fn oriented(
    w: Seq<u32>,
    shape: Seq<usize>,
    d_sae: int,
    d_in: int,
    name: Seq<char>,
) -> Result<Seq<u32>, ErrorView> {
    if shape.len() == 2 && shape[0] == d_sae && shape[1] == d_in {
        Ok(w)
    } else if shape.len() == 2 && shape[0] == d_in && shape[1] == d_sae {
        Ok(transposed(w, d_in, d_sae))
    } else {
        Err(
            ErrorView::ShapeMismatch {
                name,
                expected: seq![d_sae as usize, d_in as usize],
                got: shape,
            },
        )
    }
}

/// The weights of a checkpoint in the internal layout.
pub struct WeightsView {
    pub w_enc: Seq<u32>,
    pub b_enc: Seq<u32>,
    pub w_dec: Seq<u32>,
    pub b_dec: Seq<u32>,
}

/// The weights that four tensors make, or the first that does not fit: the two
/// biases must be vectors, and the two matrices are oriented.
pub open spec fn fitted(
    w_enc: (Seq<u32>, Seq<usize>),
    b_enc: (Seq<u32>, Seq<usize>),
    w_dec: (Seq<u32>, Seq<usize>),
    b_dec: (Seq<u32>, Seq<usize>),
    w_name: Seq<char>,
    b_name: Seq<char>,
    d_sae: int,
    d_in: int,
) -> Result<WeightsView, ErrorView> {
    if let Some(e) = vector_of(b_enc.1, d_sae, b_name) {
        Err(e)
    } else if let Some(e) = vector_of(b_dec.1, d_in, "b_dec"@) {
        Err(e)
    } else {
        match oriented(w_enc.0, w_enc.1, d_sae, d_in, w_name) {
            Err(e) => Err(e),
            Ok(we) => match oriented(w_dec.0, w_dec.1, d_sae, d_in, "W_dec"@) {
                Err(e) => Err(e),
                Ok(wd) => Ok(WeightsView { w_enc: we, b_enc: b_enc.0, w_dec: wd, b_dec: b_dec.0 }),
            },
        }
    }
}

/// The weights of a checkpoint in the internal layout.
#[derive(Debug)]
pub struct Weights {
    pub w_enc: Vec<u32>,
    pub b_enc: Vec<u32>,
    pub w_dec: Vec<u32>,
    pub b_dec: Vec<u32>,
}

impl View for Weights {
    type V = WeightsView;

    open spec fn view(&self) -> WeightsView {
        WeightsView {
            w_enc: self.w_enc@,
            b_enc: self.b_enc@,
            w_dec: self.w_dec@,
            b_dec: self.b_dec@,
        }
    }
}

impl Weights {
    /// The buffers have the sizes that the shape gives them, which a `usize` can
    /// hold.
    pub open spec fn wf(&self, d_sae: int, d_in: int) -> bool {
        &&& self.w_enc@.len() == d_sae * d_in
        &&& self.b_enc@.len() == d_sae
        &&& self.w_dec@.len() == d_sae * d_in
        &&& self.b_dec@.len() == d_in
    }
}

/// Check that a tensor is a vector of `n` elements.
pub fn expect_vector(shape: &Vec<usize>, n: usize, name: &str) -> (res: Result<(), SaeError>)
    ensures
        match vector_of(shape@, n as int, name@) {
            None => res is Ok,
            Some(err) => res matches Err(e) && e@ == err,
        },
{
    if shape.len() == 1 && shape[0] == n {
        return Ok(());
    }
    let res = SaeError::ShapeMismatch {
        name: name.to_owned(),
        expected: vec![n],
        got: vstd::slice::slice_to_vec(shape.as_slice()),
    };
    assert(res@->expected =~= seq![n]);
    Err(res)
}

/// The number of elements of a vector and of a matrix.
pub proof fn lemma_product(shape: Seq<usize>)
    ensures
        shape.len() == 1 ==> product(shape) == shape[0],
        shape.len() == 2 ==> product(shape) == shape[0] * shape[1],
{
    reveal_with_fuel(product, 3);
    if shape.len() == 1 {
        assert(shape.drop_last() =~= Seq::<usize>::empty());
        assert(product(shape) == 1 * shape[0]);
    }
    if shape.len() == 2 {
        let a = shape.drop_last();
        assert(a.drop_last() =~= Seq::<usize>::empty());
        assert(product(a) == 1 * a[0]);
        assert(a[0] == shape[0]);
        assert(product(shape) == product(a) * shape[1]);
    }
}

/// Bring a weight matrix into the internal layout `[d_sae, d_in]`.
pub fn orient(w: Vec<u32>, shape: Vec<usize>, d_sae: usize, d_in: usize, name: &str) -> (res: Result<
    Vec<u32>,
    SaeError,
>)
    requires
        w@.len() == product(shape@),
    ensures
        match oriented(w@, shape@, d_sae as int, d_in as int, name@) {
            Ok(cells) => res matches Ok(v) && v@ == cells && cells.len() == d_sae * d_in,
            Err(err) => res matches Err(e) && e@ == err,
        },
{
    proof {
        lemma_product(shape@);
        vstd::arithmetic::mul::lemma_mul_is_commutative(d_sae as int, d_in as int);
        vstd::arithmetic::mul::lemma_mul_nonnegative(d_sae as int, d_in as int);
    }
    if shape.len() == 2 && shape[0] == d_sae && shape[1] == d_in {
        return Ok(w);
    }
    if shape.len() == 2 && shape[0] == d_in && shape[1] == d_sae {
        return Ok(transpose(w.as_slice(), d_in, d_sae));
    }
    let res = SaeError::ShapeMismatch {
        name: name.to_owned(),
        expected: vec![d_sae, d_in],
        got: shape,
    };
    assert(res@->expected =~= seq![d_sae, d_in]);
    Err(res)
}

/// Check the shapes of four tensors and bring them into the internal layout.
pub fn fit(
    w_enc: (Vec<u32>, Vec<usize>),
    b_enc: (Vec<u32>, Vec<usize>),
    w_dec: (Vec<u32>, Vec<usize>),
    b_dec: (Vec<u32>, Vec<usize>),
    w_name: &str,
    b_name: &str,
    d_sae: usize,
    d_in: usize,
) -> (res: Result<Weights, SaeError>)
    requires
        w_enc.0@.len() == product(w_enc.1@),
        b_enc.0@.len() == product(b_enc.1@),
        w_dec.0@.len() == product(w_dec.1@),
        b_dec.0@.len() == product(b_dec.1@),
    ensures
        match fitted(
            (w_enc.0@, w_enc.1@),
            (b_enc.0@, b_enc.1@),
            (w_dec.0@, w_dec.1@),
            (b_dec.0@, b_dec.1@),
            w_name@,
            b_name@,
            d_sae as int,
            d_in as int,
        ) {
            Ok(view) => res matches Ok(w) && w@ == view && w.wf(d_sae as int, d_in as int),
            Err(err) => res matches Err(e) && e@ == err,
        },
{
    proof {
        lemma_product(b_enc.1@);
        lemma_product(b_dec.1@);
    }
    match expect_vector(&b_enc.1, d_sae, b_name) {
        Ok(_) => {},
        Err(e) => {
            return Err(e);
        },
    }
    match expect_vector(&b_dec.1, d_in, "b_dec") {
        Ok(_) => {},
        Err(e) => {
            return Err(e);
        },
    }
    let we: Vec<u32> = match orient(w_enc.0, w_enc.1, d_sae, d_in, w_name) {
        Ok(w) => w,
        Err(e) => {
            return Err(e);
        },
    };
    let wd: Vec<u32> = match orient(w_dec.0, w_dec.1, d_sae, d_in, "W_dec") {
        Ok(w) => w,
        Err(e) => {
            return Err(e);
        },
    };
    Ok(Weights { w_enc: we, b_enc: b_enc.0, w_dec: wd, b_dec: b_dec.0 })
}

/// The weight tensors of a checkpoint as they were read.
#[derive(Debug)]
pub struct Tensors {
    pub w_enc: TensorRead,
    pub b_enc: TensorRead,
    pub w_dec: TensorRead,
    pub b_dec: TensorRead,
}

/// The weight tensors of a checkpoint as a specification sees them.
pub struct TensorsView {
    pub w_enc: TensorView,
    pub b_enc: TensorView,
    pub w_dec: TensorView,
    pub b_dec: TensorView,
}

impl View for Tensors {
    type V = TensorsView;

    open spec fn view(&self) -> TensorsView {
        TensorsView {
            w_enc: read_view(self.w_enc),
            b_enc: read_view(self.b_enc),
            w_dec: read_view(self.w_dec),
            b_dec: read_view(self.b_dec),
        }
    }
}

impl Tensors {
    /// Every tensor that was read has as many elements as its shape asks for.
    pub open spec fn wf(&self) -> bool {
        &&& sized(self.w_enc)
        &&& sized(self.b_enc)
        &&& sized(self.w_dec)
        &&& sized(self.b_dec)
    }
}

/// The weights that tensors make, or the first thing that is wrong with them: a
/// tensor that could not be read (the encoder's bias counts before the decoder's
/// matrix if `bias_first`), then a shape that does not fit.
pub open spec fn weights_of(
    t: TensorsView,
    bias_first: bool,
    w_name: Seq<char>,
    b_name: Seq<char>,
    cfg: SaeConfig,
) -> Result<WeightsView, ErrorView> {
    if t.w_enc is Err {
        Err(t.w_enc->Err_0)
    } else if bias_first && t.b_enc is Err {
        Err(t.b_enc->Err_0)
    } else if t.w_dec is Err {
        Err(t.w_dec->Err_0)
    } else if t.b_enc is Err {
        Err(t.b_enc->Err_0)
    } else if t.b_dec is Err {
        Err(t.b_dec->Err_0)
    } else {
        fitted(
            t.w_enc->Ok_0,
            t.b_enc->Ok_0,
            t.w_dec->Ok_0,
            t.b_dec->Ok_0,
            w_name,
            b_name,
            cfg.d_sae as int,
            cfg.d_in as int,
        )
    }
}

/// Check tensors that were read and bring them into the internal layout.
pub fn gather(t: Tensors, bias_first: bool, w_name: &str, b_name: &str, cfg: &SaeConfig) -> (res: Result<
    Weights,
    SaeError,
>)
    requires
        t.wf(),
    ensures
        match weights_of(t@, bias_first, w_name@, b_name@, *cfg) {
            Ok(view) => res matches Ok(w) && w@ == view && w.wf(
                cfg.d_sae as int,
                cfg.d_in as int,
            ),
            Err(err) => res matches Err(e) && e@ == err,
        },
{
    match (t.w_enc, t.b_enc, t.w_dec, t.b_dec) {
        (Ok(w_enc), Ok(b_enc), Ok(w_dec), Ok(b_dec)) => fit(
            w_enc,
            b_enc,
            w_dec,
            b_dec,
            w_name,
            b_name,
            cfg.d_sae,
            cfg.d_in,
        ),
        (Err(e), _, _, _) => Err(e),
        (_, Err(e), Err(f), _) => if bias_first {
            Err(e)
        } else {
            Err(f)
        },
        (_, Err(e), _, _) => Err(e),
        (_, _, Err(e), _) => Err(e),
        (_, _, _, Err(e)) => Err(e),
    }
}

/// `sae` has the weights `w`, row-major.
pub open spec fn has_weights(sae: Sae, w: WeightsView) -> bool {
    &&& sae.enc.layout is RowMajor
    &&& sae.enc.w_enc@ == w.w_enc
    &&& sae.enc.b_enc@ == w.b_enc
    &&& sae.dec.w_dec@ == w.w_dec
    &&& sae.dec.b_dec@ == w.b_dec
}

/// Put an SAE together from weights in the internal layout.
pub fn build(cfg: SaeConfig, w: Weights, sparsifier: Sparsifier, backend: Backend) -> (sae: Result<
    Sae,
    SaeError,
>)
    requires
        w.wf(cfg.d_sae as int, cfg.d_in as int),
    ensures
        sae matches Ok(s) && s.wf() && s.cfg == cfg && has_weights(s, w@) && s.sparsifier
            == sparsifier && s.backend == backend && s.topk is Heap,
{
    let n_cells: usize = w.w_enc.len();
    let enc = EncoderWeights {
        w_enc: w.w_enc,
        b_enc: w.b_enc,
        d_in: cfg.d_in,
        d_sae: cfg.d_sae,
        layout: WeightLayout::RowMajor,
    };
    let dec = DecoderWeights { w_dec: w.w_dec, b_dec: w.b_dec, d_in: cfg.d_in, d_sae: cfg.d_sae };
    Sae::from_parts(cfg, enc, dec, sparsifier, backend)
}

/// The orientation that a matrix is stored in does not matter: the stored
/// `[d_in, d_sae]` form of a `[d_sae, d_in]` matrix loads as that matrix.
pub proof fn orientation_does_not_matter(w: Seq<u32>, d_sae: usize, d_in: usize, name: Seq<char>)
    requires
        w.len() == d_sae * d_in,
    ensures
        oriented(w, seq![d_sae, d_in], d_sae as int, d_in as int, name) == Ok::<_, ErrorView>(w),
        d_sae != d_in ==> oriented(
            transposed(w, d_sae as int, d_in as int),
            seq![d_in, d_sae],
            d_sae as int,
            d_in as int,
            name,
        ) == Ok::<_, ErrorView>(w),
{
    crate::io::safetensors::transpose_is_an_involution(w, d_sae as int, d_in as int);
}

} // verus!
