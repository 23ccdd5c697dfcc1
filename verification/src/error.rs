//! What can be wrong with a request.
use vstd::prelude::*;
use vstd::string::StringExecFns;
use crate::blocks::GgmlDType;
use crate::text::{decimal, decimal_of, product_text};

verus! {

/// The entry a request was made to.
#[derive(Clone, Copy, Debug, PartialEq, Eq, Structural)]
pub enum Entry {
    /// Values to blocks.
    Quantize,
    /// A product of values.
    Matmul,
    /// A product of half-precision values.
    MatmulF16,
    /// Gate and up projections of half-precision values.
    GateUpSilu,
    /// A product for each of several experts.
    Experts,
}

impl Entry {
    /// How the entry signs what it refuses.
    pub open spec fn signed(self) -> Seq<char> {
        match self {
            Entry::Quantize => "quant_cpu quantize: "@,
            Entry::Matmul => "quant_cpu matmul: "@,
            Entry::MatmulF16 => "quant_cpu matmul_f16: "@,
            Entry::GateUpSilu => "gate_up_silu: "@,
            Entry::Experts => "matmul_bytes_multi: "@,
        }
    }

    fn sign(self) -> (s: &'static str)
        ensures
            s@ == self.signed(),
    {
        match self {
            Entry::Quantize => "quant_cpu quantize: ",
            Entry::Matmul => "quant_cpu matmul: ",
            Entry::MatmulF16 => "quant_cpu matmul_f16: ",
            Entry::GateUpSilu => "gate_up_silu: ",
            Entry::Experts => "matmul_bytes_multi: ",
        }
    }
}

#[derive(Clone, Copy, Debug, PartialEq, Eq, Structural)]
pub enum Error {
    /// `len` bytes are no whole number of blocks of `size`.
    Bytes { len: usize, size: usize },
    /// `len` values are no whole number of blocks of `block`, which is what `dtype` has.
    Width { entry: Entry, len: usize, dtype: GgmlDType, block: usize },
    /// The format only ever holds activations.
    ActivationOnly,
    /// An activation of `len` values does not have the shape `m` by `k`, of a product of `n`
    /// columns.
    Activation { entry: Entry, len: usize, m: usize, k: usize, n: usize },
    /// There are `have` blocks of weights where `rows` rows of `per_row` are wanted.
    Weights { entry: Entry, have: usize, rows: usize, per_row: usize },
    /// There are `gate` and `up` blocks of weights where `rows` rows of `per_row` are wanted of
    /// each.
    GateUpWeights { gate: usize, up: usize, rows: usize, per_row: usize },
    /// An output of `len` values does not have the shape `m` by `n`.
    Output { entry: Entry, len: usize, m: usize, n: usize },
    /// `blocks` blocks of `dtype` do not expand to `len` values.
    Values { blocks: usize, dtype: GgmlDType, len: usize },
    /// The experts' weights, activations and outputs are not equally many.
    Experts { weights: usize, lhs: usize, outs: usize },
    /// Expert `e` has an activation of `len` values.
    ExpertActivation { e: usize, len: usize, k: usize },
    /// Expert `e` has an output of `len` values.
    ExpertOutput { e: usize, len: usize, n: usize },
    /// Expert `e` has `have` blocks of weights where `rows` rows of `per_row` are wanted.
    ExpertWeights { e: usize, have: usize, rows: usize, per_row: usize },
    /// A tensor of `have` dimensions where `want` are wanted.
    Rank { want: usize, have: usize },
    /// The shapes do not go together.
    Shape,
    /// A tensor of `rank` dimensions has no dimension `dim`.
    Axis { dim: usize, rank: usize },
    /// `start .. end` reaches past dimension `dim`, of `size`.
    Index { dim: usize, start: usize, end: usize, size: usize },
}

impl Error {
    /// What is wrong, in words.
    pub open spec fn text(self) -> Seq<char> {
        match self {
            Error::Width { entry, len, dtype, block } => match entry {
                Entry::Quantize => entry.signed() + decimal(len as nat) + " elems not a multiple of "@ + dtype.called() + " block size "@ + decimal(block as nat),
                Entry::Experts => entry.signed() + "k "@ + decimal(len as nat) + " not a multiple of block size "@ + decimal(block as nat),
                _ => entry.signed() + "k "@ + decimal(len as nat) + " not a multiple of "@ + dtype.called() + " block size "@ + decimal(block as nat),
            },
            Error::Activation { entry, len, m, k, n } => match entry {
                Entry::MatmulF16 => "unexpected lhs length "@ + decimal(len as nat) + " ("@ + decimal(m as nat) + ", "@ + decimal(k as nat) + ", "@ + decimal(n as nat) + ")"@,
                Entry::GateUpSilu => entry.signed() + "lhs len "@ + decimal(len as nat) + " != "@ + decimal(m as nat) + "x"@ + decimal(k as nat),
                _ => "quant matmul: activation has "@ + decimal(len as nat) + " elements but the shape says "@ + decimal(m as nat) + "x"@ + decimal(k as nat) + " = "@ + decimal((m * k) as nat) + "              (n="@ + decimal(n as nat) + ") - the caller's shape and its data disagree"@,
            },
            Error::Weights { entry, have, rows, per_row } => match entry {
                Entry::Matmul => entry.signed() + "rhs has "@ + decimal(have as nat) + " blocks, want "@ + decimal((rows * per_row) as nat) + " ("@ + decimal(rows as nat) + " rows x "@ + decimal(per_row as nat) + " / row)"@,
                _ => entry.signed() + "rhs has "@ + decimal(have as nat) + " blocks, want "@ + decimal((rows * per_row) as nat),
            },
            Error::Bytes { len, size } => "quant_cpu: byte length "@ + decimal(len as nat) + " is not a multiple of the block size "@ + decimal(size as nat),
            Error::ActivationOnly => "quant_cpu: Q8_1 has no weight-side path"@,
            Error::GateUpWeights { gate, up, rows, per_row } => "gate_up_silu: gate/up have "@ + decimal(gate as nat) + "/"@ + decimal(up as nat) + " blocks, want "@ + decimal((rows * per_row) as nat),
            Error::Output { entry, len, m, n } => entry.signed() + "dst len "@ + decimal(len as nat) + " != "@ + decimal(m as nat) + "x"@ + decimal(n as nat),
            Error::Values { blocks, dtype, len } => "quant_cpu dequantize: "@ + decimal(blocks as nat) + " blocks of "@ + dtype.called() + " != "@ + decimal(len as nat) + " output elems"@,
            Error::Experts { weights, lhs, outs } => "matmul_bytes_multi: ne mismatch rhs "@ + decimal(weights as nat) + " lhs "@ + decimal(lhs as nat) + " outs "@ + decimal(outs as nat),
            Error::ExpertActivation { e, len, k } => "matmul_bytes_multi: lhs["@ + decimal(e as nat) + "] len "@ + decimal(len as nat) + " != k "@ + decimal(k as nat),
            Error::ExpertOutput { e, len, n } => "matmul_bytes_multi: outs["@ + decimal(e as nat) + "] len "@ + decimal(len as nat) + " != n "@ + decimal(n as nat),
            Error::ExpertWeights { e, have, rows, per_row } => "matmul_bytes_multi: rhs["@ + decimal(e as nat) + "] has "@ + decimal(have as nat) + " blocks, want "@ + decimal((rows * per_row) as nat),
            Error::Rank { want, have } => "tensor has "@ + decimal(have as nat) + " dims, want "@ + decimal(want as nat),
            Error::Shape => "the shapes do not go together"@,
            Error::Axis { dim, rank } => "dim "@ + decimal(dim as nat) + " out of range for a tensor of "@ + decimal(rank as nat) + " dims"@,
            Error::Index { dim, start, end, size } => "index "@ + decimal(start as nat) + ".."@ + decimal(end as nat) + " out of range for dim "@ + decimal(dim as nat) + " of size "@ + decimal(size as nat),
        }
    }

    /// What is wrong, in words.
    pub fn message(&self) -> (s: String)
        ensures
            s@ == self.text(),
    {
        match self {
            Error::Width { entry, len, dtype, block } => match entry {
                Entry::Quantize => {
                    let mut s = entry.sign().to_owned();
                    s.append(decimal_of(*len).as_str());
                    s.append(" elems not a multiple of ");
                    s.append(dtype.name());
                    s.append(" block size ");
                    s.append(decimal_of(*block).as_str());
                    s
                },
                Entry::Experts => {
                    let mut s = entry.sign().to_owned();
                    s.append("k ");
                    s.append(decimal_of(*len).as_str());
                    s.append(" not a multiple of block size ");
                    s.append(decimal_of(*block).as_str());
                    s
                },
                _ => {
                    let mut s = entry.sign().to_owned();
                    s.append("k ");
                    s.append(decimal_of(*len).as_str());
                    s.append(" not a multiple of ");
                    s.append(dtype.name());
                    s.append(" block size ");
                    s.append(decimal_of(*block).as_str());
                    s
                },
            },
            Error::Activation { entry, len, m, k, n } => match entry {
                Entry::MatmulF16 => {
                    let mut s = "unexpected lhs length ".to_owned();
                    s.append(decimal_of(*len).as_str());
                    s.append(" (");
                    s.append(decimal_of(*m).as_str());
                    s.append(", ");
                    s.append(decimal_of(*k).as_str());
                    s.append(", ");
                    s.append(decimal_of(*n).as_str());
                    s.append(")");
                    s
                },
                Entry::GateUpSilu => {
                    let mut s = entry.sign().to_owned();
                    s.append("lhs len ");
                    s.append(decimal_of(*len).as_str());
                    s.append(" != ");
                    s.append(decimal_of(*m).as_str());
                    s.append("x");
                    s.append(decimal_of(*k).as_str());
                    s
                },
                _ => {
                    let mut s = "quant matmul: activation has ".to_owned();
                    s.append(decimal_of(*len).as_str());
                    s.append(" elements but the shape says ");
                    s.append(decimal_of(*m).as_str());
                    s.append("x");
                    s.append(decimal_of(*k).as_str());
                    s.append(" = ");
                    s.append(product_text(*m, *k).as_str());
                    s.append("              (n=");
                    s.append(decimal_of(*n).as_str());
                    s.append(") - the caller's shape and its data disagree");
                    s
                },
            },
            Error::Weights { entry, have, rows, per_row } => match entry {
                Entry::Matmul => {
                    let mut s = entry.sign().to_owned();
                    s.append("rhs has ");
                    s.append(decimal_of(*have).as_str());
                    s.append(" blocks, want ");
                    s.append(product_text(*rows, *per_row).as_str());
                    s.append(" (");
                    s.append(decimal_of(*rows).as_str());
                    s.append(" rows x ");
                    s.append(decimal_of(*per_row).as_str());
                    s.append(" / row)");
                    s
                },
                _ => {
                    let mut s = entry.sign().to_owned();
                    s.append("rhs has ");
                    s.append(decimal_of(*have).as_str());
                    s.append(" blocks, want ");
                    s.append(product_text(*rows, *per_row).as_str());
                    s
                },
            },
            Error::Bytes { len, size } => {
                let mut s = "quant_cpu: byte length ".to_owned();
                s.append(decimal_of(*len).as_str());
                s.append(" is not a multiple of the block size ");
                s.append(decimal_of(*size).as_str());
                s
            },
            Error::ActivationOnly => "quant_cpu: Q8_1 has no weight-side path".to_owned(),
            Error::GateUpWeights { gate, up, rows, per_row } => {
                let mut s = "gate_up_silu: gate/up have ".to_owned();
                s.append(decimal_of(*gate).as_str());
                s.append("/");
                s.append(decimal_of(*up).as_str());
                s.append(" blocks, want ");
                s.append(product_text(*rows, *per_row).as_str());
                s
            },
            Error::Output { entry, len, m, n } => {
                let mut s = entry.sign().to_owned();
                s.append("dst len ");
                s.append(decimal_of(*len).as_str());
                s.append(" != ");
                s.append(decimal_of(*m).as_str());
                s.append("x");
                s.append(decimal_of(*n).as_str());
                s
            },
            Error::Values { blocks, dtype, len } => {
                let mut s = "quant_cpu dequantize: ".to_owned();
                s.append(decimal_of(*blocks).as_str());
                s.append(" blocks of ");
                s.append(dtype.name());
                s.append(" != ");
                s.append(decimal_of(*len).as_str());
                s.append(" output elems");
                s
            },
            Error::Experts { weights, lhs, outs } => {
                let mut s = "matmul_bytes_multi: ne mismatch rhs ".to_owned();
                s.append(decimal_of(*weights).as_str());
                s.append(" lhs ");
                s.append(decimal_of(*lhs).as_str());
                s.append(" outs ");
                s.append(decimal_of(*outs).as_str());
                s
            },
            Error::ExpertActivation { e, len, k } => {
                let mut s = "matmul_bytes_multi: lhs[".to_owned();
                s.append(decimal_of(*e).as_str());
                s.append("] len ");
                s.append(decimal_of(*len).as_str());
                s.append(" != k ");
                s.append(decimal_of(*k).as_str());
                s
            },
            Error::ExpertOutput { e, len, n } => {
                let mut s = "matmul_bytes_multi: outs[".to_owned();
                s.append(decimal_of(*e).as_str());
                s.append("] len ");
                s.append(decimal_of(*len).as_str());
                s.append(" != n ");
                s.append(decimal_of(*n).as_str());
                s
            },
            Error::ExpertWeights { e, have, rows, per_row } => {
                let mut s = "matmul_bytes_multi: rhs[".to_owned();
                s.append(decimal_of(*e).as_str());
                s.append("] has ");
                s.append(decimal_of(*have).as_str());
                s.append(" blocks, want ");
                s.append(product_text(*rows, *per_row).as_str());
                s
            },
            Error::Rank { want, have } => {
                let mut s = "tensor has ".to_owned();
                s.append(decimal_of(*have).as_str());
                s.append(" dims, want ");
                s.append(decimal_of(*want).as_str());
                s
            },
            Error::Shape => "the shapes do not go together".to_owned(),
            Error::Axis { dim, rank } => {
                let mut s = "dim ".to_owned();
                s.append(decimal_of(*dim).as_str());
                s.append(" out of range for a tensor of ");
                s.append(decimal_of(*rank).as_str());
                s.append(" dims");
                s
            },
            Error::Index { dim, start, end, size } => {
                let mut s = "index ".to_owned();
                s.append(decimal_of(*start).as_str());
                s.append("..");
                s.append(decimal_of(*end).as_str());
                s.append(" out of range for dim ");
                s.append(decimal_of(*dim).as_str());
                s.append(" of size ");
                s.append(decimal_of(*size).as_str());
                s
            },
        }
    }
}

} // verus!
