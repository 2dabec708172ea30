//! The formulas, evaluated with Candle on small tensors, against the same layers written out.
use candle_core::{D, DType, Device, IndexOp, Module, Result, Tensor};
use candle_nn::{Conv1d, Conv1dConfig};
use candle_transformers::utils::repeat_kv;
use qwen_runner::attention::AttentionWeights;
use qwen_runner::blocks::{Heads, repeat_interleave};
use qwen_runner::delta::{DeltaDims, DeltaInputs, answers, torch_recurrent_gated_delta_rule};
use qwen_runner::delta_net::{DeltaNetDims, Qwen3_5GatedDeltaNet, negative_decay};
use qwen_runner::graph::{
    Dims, FloatSetting, Node, Pairwise, Projection, SameShape, Scalar, Scan, Slot, later_positions,
};
use qwen_runner::loading::LayerWeights;
use qwen_runner::pass::{Kept, Step};
use qwen_runner::quantized_qwen3_5;
use qwen_runner::qwen3_5::{self, LinearWeights, Qwen3_5RmsNorm};
use qwen_runner::rotary::frequency_indices;
use qwen_runner::state_space::{
    StateSpaceWeights, apply_depthwise_conv_silu, last_inputs, padded,
};
use std::collections::HashMap;
use std::rc::Rc;

const EPS: f64 = 1e-5;

struct Bench {
    slots: HashMap<Slot, Tensor>,
    maps: HashMap<Projection, Tensor>,
    conv: Option<Conv1d>,
    step: Option<(usize, Tensor)>,
}

impl Bench {
    fn new() -> Self {
        Bench {
            slots: HashMap::new(),
            maps: HashMap::new(),
            conv: None,
            step: None,
        }
    }

    fn put(&mut self, slot: Slot, tensor: &Tensor) {
        self.slots.insert(slot, tensor.clone());
    }

    fn put_map(&mut self, map: Projection, weight: &Tensor) {
        self.maps.insert(map, weight.clone());
    }

    fn keep(&mut self, kept: &Kept) -> Result<()> {
        match kept {
            Kept::Attention { keys, values } => {
                let (keys, values) = (self.eval(keys)?, self.eval(values)?);
                self.put(Slot::CachedKeys, &keys);
                self.put(Slot::CachedValues, &values);
            }
            Kept::StateSpace {
                conv_state,
                recurrent_state,
            } => {
                let (conv, recurrent) = (self.eval(conv_state)?, self.eval(recurrent_state)?);
                self.put(Slot::ConvState, &conv);
                self.put(Slot::RecurrentState, &recurrent);
            }
        }
        Ok(())
    }

    fn eval(&mut self, node: &Node) -> Result<Tensor> {
        match node {
            Node::Leaf(Slot::Carry) => Ok(self.step.as_ref().unwrap().1.clone()),
            Node::Leaf(slot) => Ok(self.slots[slot].clone()),
            Node::ZerosLike { dims, like } => {
                let like = self.eval(like)?;
                Tensor::zeros(plain(*dims), like.dtype(), like.device())
            }
            Node::ZerosSingle { dims } | Node::ZerosModel { dims } => {
                Tensor::zeros(plain(*dims), DType::F32, &Device::Cpu)
            }
            Node::CausalMask { len } => {
                let mask: Vec<f32> = later_positions(*len)
                    .into_iter()
                    .map(|later| if later { f32::NEG_INFINITY } else { 0.0 })
                    .collect();
                Tensor::from_slice(&mask, (*len, *len), &Device::Cpu)
            }
            Node::Embed { ids } => {
                let ids = self.eval(ids)?;
                let (b, s) = ids.dims2()?;
                let table = self.maps[&Projection::Head].clone();
                let width = table.dim(1)?;
                table
                    .index_select(&ids.flatten_all()?, 0)?
                    .reshape((b, s, width))
            }
            Node::Linear { map, x } => {
                let x = self.eval(x)?;
                linear(&x, &self.maps[map])
            }
            Node::RmsNorm { weight, eps, x } => {
                let x = self.eval(x)?;
                candle_nn::ops::rms_norm(&x, &self.slots[weight], float(*eps) as f32)
            }
            Node::Conv { x } => {
                let x = self.eval(x)?;
                self.conv.as_ref().unwrap().forward(&x)
            }
            Node::Reshape { x, dims } => {
                let x = self.eval(x)?;
                match *dims {
                    Dims::HoleOne(a) => x.reshape(((), a)),
                    Dims::TwoHole(a, b) => x.reshape((a, b, ())),
                    Dims::TwoHoleOne(a, b, c) => x.reshape((a, b, (), c)),
                    dims => x.reshape(plain(dims)),
                }
            }
            Node::Expand { x, dims } => self.eval(x)?.broadcast_as(plain(*dims)),
            Node::Narrow { x, dim, start, len } => self.eval(x)?.narrow(*dim, *start, *len),
            Node::NarrowStep { x, dim, len } => {
                let step = self.step.as_ref().unwrap().0;
                self.eval(x)?.narrow(*dim, step, *len)
            }
            Node::Transpose { x, first, second } => self.eval(x)?.transpose(*first, *second),
            Node::Unsqueeze { x, dim } => self.eval(x)?.unsqueeze(*dim),
            Node::Select { x, dim, index } => {
                self.eval(x)?.narrow(*dim, *index, 1)?.squeeze(*dim)
            }
            Node::FlattenThree { x } => self.eval(x)?.flatten(0, 2),
            Node::Cat { first, second, dim } => {
                let (first, second) = (self.eval(first)?, self.eval(second)?);
                Tensor::cat(&[&first, &second], *dim)
            }
            Node::RepeatHeads { x, times } => repeat_kv(self.eval(x)?, *times),
            Node::Apply { op, x } => {
                let x = self.eval(x)?;
                match op {
                    SameShape::Silu | SameShape::HiddenAct => candle_nn::ops::silu(&x),
                    SameShape::Sigmoid => candle_nn::ops::sigmoid(&x),
                    SameShape::Softmax => candle_nn::ops::softmax_last_dim(&x),
                    SameShape::Exp => x.exp(),
                    SameShape::Log => x.log(),
                    SameShape::Sqr => x.sqr(),
                    SameShape::Sqrt => x.sqrt(),
                    SameShape::Recip => x.recip(),
                    SameShape::Contiguous => x.contiguous(),
                    SameShape::Single | SameShape::Widen | SameShape::ModelFormat => {
                        x.to_dtype(DType::F32)
                    }
                }
            }
            Node::SumKeep { x } => self.eval(x)?.sum_keepdim(D::Minus1),
            Node::MeanKeep { x } => self.eval(x)?.mean_keepdim(D::Minus1),
            Node::Sum { x, dim } => self.eval(x)?.sum(*dim),
            Node::Plus { x, scalar } => self.eval(x)? + number(*scalar),
            Node::Times { x, scalar } => self.eval(x)? * number(*scalar),
            Node::Pair { op, a, b } => {
                let (a, b) = (self.eval(a)?, self.eval(b)?);
                match op {
                    Pairwise::Add => a + b,
                    Pairwise::Sub => a - b,
                    Pairwise::Mul => a * b,
                    Pairwise::BroadcastAdd => a.broadcast_add(&b),
                    Pairwise::BroadcastMul => a.broadcast_mul(&b),
                    Pairwise::MatMul => a.matmul(&b),
                    Pairwise::FormatOf | Pairwise::WidenedFormatOf => a.to_dtype(b.dtype()),
                }
            }
            Node::Rope { x, cos, sin } => {
                let (x, cos, sin) = (self.eval(x)?, self.eval(cos)?, self.eval(sin)?);
                candle_nn::rotary_emb::rope(&x, &cos, &sin)
            }
            Node::Collect { steps, dim, item } => {
                let nothing = Tensor::zeros(1, DType::F32, &Device::Cpu)?;
                let mut items = Vec::new();
                let around = self.step.take();
                for i in 0..*steps {
                    self.step = Some((i, nothing.clone()));
                    items.push(self.eval(item)?);
                }
                self.step = around;
                Tensor::cat(&items, *dim)
            }
            Node::ScanItems { scan } => {
                let (items, _) = self.run(scan)?;
                Tensor::cat(&items, scan.dim)
            }
            Node::ScanState { scan } => Ok(self.run(scan)?.1),
        }
    }

    fn run(&mut self, scan: &Scan) -> Result<(Vec<Tensor>, Tensor)> {
        let mut state = self.eval(&scan.first)?;
        let mut items = Vec::new();
        let around = self.step.take();
        for i in 0..scan.steps {
            self.step = Some((i, state));
            let next = self.eval(&scan.next)?;
            items.push(self.eval(&scan.item)?);
            state = next;
        }
        self.step = around;
        Ok((items, state))
    }
}

fn float(setting: FloatSetting) -> f64 {
    match setting {
        FloatSetting::Double(bits) => f64::from_bits(bits),
        FloatSetting::Single(bits) => f32::from_bits(bits) as f64,
        FloatSetting::Default => 1e-6,
    }
}

fn eps() -> FloatSetting {
    FloatSetting::Double(EPS.to_bits())
}

fn number(scalar: Scalar) -> f64 {
    match scalar {
        Scalar::One => 1.0,
        Scalar::MinusOne => -1.0,
        Scalar::Millionth => 1e-6,
        Scalar::Epsilon(eps) => float(eps),
        Scalar::InvSqrt(dim) => 1.0 / (dim as f64).sqrt(),
    }
}

fn plain(dims: Dims) -> Vec<usize> {
    match dims {
        Dims::Two(a, b) => vec![a, b],
        Dims::Three(a, b, c) => vec![a, b, c],
        Dims::Four(a, b, c, d) => vec![a, b, c, d],
        Dims::Five(a, b, c, d, e) => vec![a, b, c, d, e],
        _ => panic!("a hole"),
    }
}

fn linear(x: &Tensor, weight: &Tensor) -> Result<Tensor> {
    candle_nn::Linear::new(weight.clone(), None).forward(x)
}

fn random(dims: &[usize]) -> Tensor {
    Tensor::randn(0f32, 1f32, dims, &Device::Cpu).unwrap()
}

fn close(a: &Tensor, b: &Tensor) {
    assert_eq!(a.dims(), b.dims());
    let difference = (a - b).unwrap().abs().unwrap();
    let largest: f32 = difference
        .flatten_all()
        .unwrap()
        .max(0)
        .unwrap()
        .to_scalar()
        .unwrap();
    assert!(largest < 1e-4, "{largest}");
}

fn tables(dim: usize, positions: usize) -> (Tensor, Tensor) {
    let frequencies: Vec<f32> = frequency_indices(dim)
        .into_iter()
        .map(|i| 1f32 / 10000f64.powf(i as f64 / dim as f64) as f32)
        .collect();
    let columns = frequencies.len();
    let row = Tensor::from_vec(frequencies, (1, columns), &Device::Cpu).unwrap();
    let column = Tensor::arange(0u32, positions as u32, &Device::Cpu)
        .unwrap()
        .to_dtype(DType::F32)
        .unwrap()
        .reshape((positions, 1))
        .unwrap();
    let angles = column.matmul(&row).unwrap();
    (angles.cos().unwrap(), angles.sin().unwrap())
}

fn mask_of(len: usize, past: usize) -> Tensor {
    let mut mask = Vec::new();
    for i in 0..len {
        for j in 0..past + len {
            mask.push(if j > past + i { f32::NEG_INFINITY } else { 0.0 });
        }
    }
    Tensor::from_vec(mask, (1, 1, len, past + len), &Device::Cpu).unwrap()
}

struct AttentionSample {
    h: usize,
    kv: usize,
    d: usize,
    q: Tensor,
    k: Tensor,
    v: Tensor,
    o: Tensor,
    q_norm: Tensor,
    k_norm: Tensor,
    q_bias: Tensor,
    cos: Tensor,
    sin: Tensor,
}

impl AttentionSample {
    fn new(gated: bool) -> Self {
        let (h, kv, d, hidden) = (4, 2, 6, 5);
        let (cos, sin) = tables(d, 10);
        AttentionSample {
            h,
            kv,
            d,
            q: random(&[if gated { h * d * 2 } else { h * d }, hidden]),
            k: random(&[kv * d, hidden]),
            v: random(&[kv * d, hidden]),
            o: random(&[hidden, h * d]),
            q_norm: random(&[d]),
            k_norm: random(&[d]),
            q_bias: random(&[if gated { h * d * 2 } else { h * d }]),
            cos,
            sin,
        }
    }

    fn bench(&self) -> Bench {
        let mut bench = Bench::new();
        bench.put_map(Projection::Query, &self.q);
        bench.put_map(Projection::Key, &self.k);
        bench.put_map(Projection::Value, &self.v);
        bench.put_map(Projection::Output, &self.o);
        bench.put(Slot::QueryNorm, &self.q_norm);
        bench.put(Slot::KeyNorm, &self.k_norm);
        bench.put(Slot::QueryBias, &self.q_bias);
        bench.put(Slot::Cos, &self.cos);
        bench.put(Slot::Sin, &self.sin);
        bench
    }

    fn norm(&self, x: &Tensor, weight: &Tensor, dense: bool) -> Result<Tensor> {
        let variance = x.sqr()?.mean_keepdim(D::Minus1)?;
        let x = x.broadcast_mul(&(variance + EPS)?.sqrt()?.recip()?)?;
        if dense {
            x.broadcast_mul(&(weight + 1.0)?)
        } else {
            x.broadcast_mul(weight)
        }
    }

    /// Attention over all of `x` at once, the last `last` positions of it.
    fn whole(&self, x: &Tensor, gated: bool, biased: bool, dense: bool) -> Result<Tensor> {
        let (b, s, _) = x.dims3()?;
        let (h, kv, d) = (self.h, self.kv, self.d);
        let mut q = linear(x, &self.q)?;
        if biased {
            q = q.broadcast_add(&self.q_bias)?;
        }
        let q = q.reshape((b, s, h, ()))?;
        let gate = if gated {
            Some(q.narrow(3, d, d)?)
        } else {
            None
        };
        let q = self.norm(&q.narrow(3, 0, d)?, &self.q_norm, dense)?;
        let k = linear(x, &self.k)?.reshape((b, s, kv, d))?;
        let k = self.norm(&k, &self.k_norm, dense)?;
        let v = linear(x, &self.v)?.reshape((b, s, kv, d))?;
        let cos = self.cos.narrow(0, 0, s)?;
        let sin = self.sin.narrow(0, 0, s)?;
        let q = candle_nn::rotary_emb::rope(&q.transpose(1, 2)?.contiguous()?, &cos, &sin)?;
        let k = candle_nn::rotary_emb::rope(&k.transpose(1, 2)?.contiguous()?, &cos, &sin)?;
        let k = repeat_kv(k, h / kv)?.contiguous()?;
        let v = repeat_kv(v.transpose(1, 2)?.contiguous()?, h / kv)?.contiguous()?;
        let scores = (q.matmul(&k.transpose(2, 3)?)? * (1.0 / (d as f64).sqrt()))?;
        let scores = scores.broadcast_add(&mask_of(s, 0))?;
        let context = candle_nn::ops::softmax_last_dim(&scores)?
            .matmul(&v)?
            .transpose(1, 2)?
            .contiguous()?;
        let context = match gate {
            Some(gate) => context.broadcast_mul(&candle_nn::ops::sigmoid(&gate)?)?,
            None => context,
        };
        linear(&context.reshape((b, s, h * d))?, &self.o)
    }
}

fn input() -> Rc<Node> {
    Rc::new(Node::Leaf(Slot::Input))
}

fn step(batch: usize, len: usize, offset: usize) -> Step {
    Step {
        batch,
        len,
        offset,
        masked: len != 1,
    }
}

fn quantized_attention_agrees(gated: bool, biased: bool) {
    let sample = AttentionSample::new(gated);
    let mut layer = AttentionWeights {
        num_heads: sample.h,
        num_kv_heads: sample.kv,
        num_kv_groups: sample.h / sample.kv,
        head_dim: sample.d,
        q_out_dim: sample.q.dim(0).unwrap(),
        q_norm: true,
        k_norm: true,
        q_bias: biased,
        k_bias: false,
        v_bias: false,
        norm_eps: eps(),
        cached: false,
    };
    let x = random(&[2, 4, 5]);
    let expected = sample.whole(&x, gated, biased, false).unwrap();
    let mut bench = sample.bench();

    bench.put(Slot::Input, &x.narrow(1, 0, 3).unwrap());
    bench.put(Slot::Mask, &mask_of(3, 0));
    let first = layer.forward(&input(), step(2, 3, 0));
    let output = bench.eval(&first.output).unwrap();
    close(&output, &expected.narrow(1, 0, 3).unwrap());
    bench
        .keep(&Kept::Attention {
            keys: first.keys,
            values: first.values,
        })
        .unwrap();
    assert_eq!(bench.slots[&Slot::CachedKeys].dims(), &[2, 2, 3, 6]);

    bench.put(Slot::Input, &x.narrow(1, 3, 1).unwrap());
    let second = layer.forward(&input(), step(2, 1, 3));
    let output = bench.eval(&second.output).unwrap();
    close(&output, &expected.narrow(1, 3, 1).unwrap());
    assert_eq!(bench.eval(&second.keys).unwrap().dims(), &[2, 2, 4, 6]);
}

#[test]
fn gated_quantized_attention_continues_from_its_cache() {
    quantized_attention_agrees(true, false);
}

#[test]
fn plain_quantized_attention_continues_from_its_cache() {
    quantized_attention_agrees(false, false);
}

#[test]
fn biased_quantized_attention_continues_from_its_cache() {
    quantized_attention_agrees(true, true);
}

fn no_weights() -> LinearWeights {
    LinearWeights {
        path: String::new(),
        in_dim: 0,
        out_dim: 0,
        with_bias: false,
    }
}

fn no_norm() -> Qwen3_5RmsNorm {
    Qwen3_5RmsNorm {
        path: String::new(),
        dim: 0,
        eps: EPS.to_bits(),
    }
}

fn dense_attention(sample: &AttentionSample) -> qwen3_5::Qwen3_5Attention {
    qwen3_5::Qwen3_5Attention {
        q_proj: no_weights(),
        k_proj: no_weights(),
        v_proj: no_weights(),
        o_proj: no_weights(),
        q_norm: no_norm(),
        k_norm: no_norm(),
        rotary_emb: qwen3_5::Qwen3_5TextRotaryEmbedding {
            dim: sample.d,
            max_seq_len: 10,
            theta: 0,
        },
        dims: qwen3_5::AttentionDims {
            num_heads: sample.h,
            num_kv_heads: sample.kv,
            num_kv_groups: sample.h / sample.kv,
            head_dim: sample.d,
        },
        cached: false,
    }
}

#[test]
fn dense_attention_reads_a_second_prompt_behind_its_cache() {
    let sample = AttentionSample::new(true);
    let mut layer = dense_attention(&sample);
    let x = random(&[2, 6, 5]);
    let expected = sample.whole(&x, true, false, true).unwrap();
    let mut bench = sample.bench();
    let mut past = 0;
    for len in [3, 2, 1] {
        bench.put(Slot::Input, &x.narrow(1, past, len).unwrap());
        if len > 1 {
            let mask = qwen3_5::prepare_causal_attention_mask(2, len, past);
            let mask = bench.eval(&mask).unwrap();
            assert_eq!(mask.dims(), &[2, 1, len, past + len]);
            bench.put(Slot::Mask, &mask);
        }
        let pass = layer.forward(&input(), step(2, len, past));
        let output = bench.eval(&pass.output).unwrap();
        close(&output, &expected.narrow(1, past, len).unwrap());
        bench
            .keep(&Kept::Attention {
                keys: pass.keys,
                values: pass.values,
            })
            .unwrap();
        past += len;
        assert_eq!(bench.slots[&Slot::CachedValues].dims(), &[2, 2, past, 6]);
    }
}

struct RecurrentSample {
    nk: usize,
    nv: usize,
    hk: usize,
    hv: usize,
    kernel: usize,
    qkv: Tensor,
    z: Tensor,
    a: Tensor,
    b: Tensor,
    out: Tensor,
    conv: Tensor,
    dt_bias: Tensor,
    decay: Tensor,
    norm: Tensor,
}

impl RecurrentSample {
    fn new(nk: usize, nv: usize) -> Self {
        let (hk, hv, kernel, hidden) = (3, 4, 3, 5);
        let conv_dim = 2 * nk * hk + nv * hv;
        RecurrentSample {
            nk,
            nv,
            hk,
            hv,
            kernel,
            qkv: random(&[conv_dim, hidden]),
            z: random(&[nv * hv, hidden]),
            a: random(&[nv, hidden]),
            b: random(&[nv, hidden]),
            out: random(&[hidden, nv * hv]),
            conv: random(&[conv_dim, kernel]),
            dt_bias: random(&[nv]),
            decay: random(&[nv]).abs().unwrap().neg().unwrap(),
            norm: random(&[hv]),
        }
    }

    fn conv_dim(&self) -> usize {
        2 * self.nk * self.hk + self.nv * self.hv
    }

    fn bench(&self) -> Bench {
        let mut bench = Bench::new();
        bench.put_map(Projection::MixedQkv, &self.qkv);
        bench.put_map(Projection::MixerGate, &self.z);
        bench.put_map(Projection::Alpha, &self.a);
        bench.put_map(Projection::Beta, &self.b);
        bench.put_map(Projection::MixerOutput, &self.out);
        bench.put(Slot::ConvWeight, &self.conv);
        bench.put(Slot::DtBias, &self.dt_bias);
        bench.put(Slot::NegativeDecay, &self.decay);
        bench.put(Slot::GatedNorm, &self.norm);
        bench.conv = Some(Conv1d::new(
            self.conv.unsqueeze(1).unwrap(),
            None,
            Conv1dConfig {
                groups: self.conv_dim(),
                ..Default::default()
            },
        ));
        bench
    }

    /// The recurrence written out, head by head and position by position.
    fn whole(&self, x: &Tensor) -> Result<(Tensor, Tensor)> {
        let (batch, s, _) = x.dims3()?;
        let (nk, nv, hk, hv) = (self.nk, self.nv, self.hk, self.hv);
        let key = nk * hk;
        let mixed = linear(x, &self.qkv)?;
        let mut rows = Vec::new();
        for t in 0..s {
            let mut sum = Tensor::zeros((batch, self.conv_dim()), DType::F32, &Device::Cpu)?;
            for j in 0..self.kernel {
                let at = t + j;
                if at + 1 >= self.kernel {
                    let input = mixed.i((.., at + 1 - self.kernel, ..))?;
                    sum = (sum + input.broadcast_mul(&self.conv.i((.., j))?)?)?;
                }
            }
            rows.push(candle_nn::ops::silu(&sum)?);
        }
        let z = linear(x, &self.z)?;
        let a = linear(x, &self.a)?;
        let beta = candle_nn::ops::sigmoid(&linear(x, &self.b)?)?;
        let decay = (a.broadcast_add(&self.dt_bias)?.exp()? + 1.0)?
            .log()?
            .broadcast_mul(&self.decay)?
            .exp()?;
        let unit = |x: &Tensor| -> Result<Tensor> {
            x.broadcast_mul(&(x.sqr()?.sum_keepdim(D::Minus1)? + 1e-6)?.sqrt()?.recip()?)
        };
        let mut sequences = Vec::new();
        let mut states = Vec::new();
        for n in 0..batch {
            let mut outputs = vec![Vec::new(); s];
            let mut finals = Vec::new();
            for head in 0..nv {
                let group = head / (nv / nk);
                let mut state = Tensor::zeros((hk, hv), DType::F32, &Device::Cpu)?;
                for t in 0..s {
                    let row = rows[t].i(n)?;
                    let q = unit(&row.narrow(0, group * hk, hk)?.unsqueeze(0)?)?;
                    let q = (q * (1.0 / (hk as f64).sqrt()))?;
                    let k = unit(&row.narrow(0, key + group * hk, hk)?.unsqueeze(0)?)?;
                    let v = row.narrow(0, 2 * key + head * hv, hv)?.unsqueeze(0)?;
                    let g: f32 = decay.i((n, t, head))?.to_scalar()?;
                    let b: f32 = beta.i((n, t, head))?.to_scalar()?;
                    state = (state * g as f64)?;
                    let delta = ((v - k.matmul(&state)?)? * b as f64)?;
                    state = (state + k.t()?.matmul(&delta)?)?;
                    let answer = q.matmul(&state)?.squeeze(0)?;
                    let mean: f32 = answer.sqr()?.mean_all()?.to_scalar()?;
                    let answer = (answer * (1.0 / (mean as f64 + EPS).sqrt()))?;
                    let answer = (answer * &self.norm)?;
                    let gate = z.i((n, t))?.narrow(0, head * hv, hv)?;
                    outputs[t].push((answer * candle_nn::ops::silu(&gate)?)?);
                }
                finals.push(state);
            }
            let mut positions = Vec::new();
            for heads in &outputs {
                positions.push(Tensor::cat(heads, 0)?);
            }
            sequences.push(Tensor::stack(&positions, 0)?);
            states.push(Tensor::stack(&finals, 0)?);
        }
        let joined = Tensor::stack(&sequences, 0)?;
        Ok((linear(&joined, &self.out)?, Tensor::stack(&states, 0)?))
    }
}

#[test]
fn quantized_recurrence_continues_from_its_states() {
    let sample = RecurrentSample::new(2, 2);
    let mut layer = StateSpaceWeights {
        num_v_heads: 2,
        num_k_heads: 2,
        head_k_dim: sample.hk,
        head_v_dim: sample.hv,
        key_dim: 2 * sample.hk,
        value_dim: 2 * sample.hv,
        conv_kernel_size: sample.kernel,
        conv_dim: sample.conv_dim(),
        norm_eps: eps(),
        primed: false,
    };
    let x = random(&[1, 6, 5]);
    let (expected, state) = sample.whole(&x).unwrap();
    let mut bench = sample.bench();
    let mut past = 0;
    for len in [4, 1, 1] {
        bench.put(Slot::Input, &x.narrow(1, past, len).unwrap());
        let pass = layer.forward(&input(), step(1, len, past));
        let output = bench.eval(&pass.output).unwrap();
        close(&output, &expected.narrow(1, past, len).unwrap());
        bench
            .keep(&Kept::StateSpace {
                conv_state: pass.conv_state,
                recurrent_state: pass.recurrent_state,
            })
            .unwrap();
        assert_eq!(bench.slots[&Slot::ConvState].dims(), &[1, 20, 2]);
        past += len;
    }
    close(&bench.slots[&Slot::RecurrentState], &state);
}

#[test]
fn quantized_recurrence_begins_anew_with_several_positions() {
    let sample = RecurrentSample::new(2, 2);
    let mut layer = StateSpaceWeights {
        num_v_heads: 2,
        num_k_heads: 2,
        head_k_dim: sample.hk,
        head_v_dim: sample.hv,
        key_dim: 2 * sample.hk,
        value_dim: 2 * sample.hv,
        conv_kernel_size: sample.kernel,
        conv_dim: sample.conv_dim(),
        norm_eps: eps(),
        primed: true,
    };
    let x = random(&[1, 3, 5]);
    let (expected, _) = sample.whole(&x).unwrap();
    let mut bench = sample.bench();
    bench.put(Slot::Input, &x);
    bench.put(Slot::ConvState, &random(&[1, 20, 2]));
    bench.put(Slot::RecurrentState, &random(&[1, 2, 3, 4]));
    let pass = layer.forward(&input(), step(1, 3, 7));
    close(&bench.eval(&pass.output).unwrap(), &expected);
}

#[test]
fn dense_recurrence_shares_key_heads_and_continues() {
    let sample = RecurrentSample::new(2, 4);
    let mut layer = Qwen3_5GatedDeltaNet {
        path: String::new(),
        dims: DeltaNetDims {
            num_v_heads: 4,
            num_k_heads: 2,
            head_k_dim: sample.hk,
            head_v_dim: sample.hv,
            key_dim: 2 * sample.hk,
            value_dim: 4 * sample.hv,
            conv_kernel_size: sample.kernel,
            conv_dim: sample.conv_dim(),
            norm_eps: EPS.to_bits(),
        },
        in_proj_qkv: no_weights(),
        in_proj_z: no_weights(),
        in_proj_b: no_weights(),
        in_proj_a: no_weights(),
        out_proj: no_weights(),
        primed: false,
    };
    let x = random(&[1, 5, 5]);
    let (expected, state) = sample.whole(&x).unwrap();
    let mut bench = sample.bench();
    let mut past = 0;
    for len in [3, 1, 1] {
        bench.put(Slot::Input, &x.narrow(1, past, len).unwrap());
        let pass = layer.forward(&input(), step(1, len, past));
        let output = bench.eval(&pass.output).unwrap();
        close(&output, &expected.narrow(1, past, len).unwrap());
        bench
            .keep(&Kept::StateSpace {
                conv_state: pass.conv_state,
                recurrent_state: pass.recurrent_state,
            })
            .unwrap();
        past += len;
    }
    close(&bench.slots[&Slot::RecurrentState], &state);
}

#[test]
fn decay_rates_are_negative_exponentials() {
    let mut bench = Bench::new();
    let logs = Tensor::new(&[0f32, 1f32], &Device::Cpu).unwrap();
    bench.put(Slot::ALog, &logs);
    let rates: Vec<f32> = bench.eval(&negative_decay()).unwrap().to_vec1().unwrap();
    assert_eq!(rates[0], -1.0);
    assert!((rates[1] + std::f32::consts::E).abs() < 1e-6);
}

#[test]
fn a_quantized_layer_adds_its_parts_to_its_input() {
    let sample = AttentionSample::new(true);
    let mut layer = LayerWeights::FullAttention(AttentionWeights {
        num_heads: sample.h,
        num_kv_heads: sample.kv,
        num_kv_groups: sample.h / sample.kv,
        head_dim: sample.d,
        q_out_dim: sample.h * sample.d * 2,
        q_norm: true,
        k_norm: true,
        q_bias: false,
        k_bias: false,
        v_bias: false,
        norm_eps: eps(),
        cached: false,
    });
    let mut bench = sample.bench();
    let x = random(&[2, 1, 5]);
    let (n1, n2) = (random(&[5]), random(&[5]));
    let (gate, up, down) = (random(&[7, 5]), random(&[7, 5]), random(&[5, 7]));
    bench.put(Slot::Input, &x);
    bench.put(Slot::MixerNorm, &n1);
    bench.put(Slot::MlpNorm, &n2);
    bench.put_map(Projection::Gate, &gate);
    bench.put_map(Projection::Up, &up);
    bench.put_map(Projection::Down, &down);
    let pass = layer.forward(&input(), step(2, 1, 0));
    let output = bench.eval(&pass.output).unwrap();

    let h = sample.norm(&x, &n1, false).unwrap();
    let sum = (&x + sample.whole(&h, true, false, false).unwrap()).unwrap();
    let h = sample.norm(&sum, &n2, false).unwrap();
    let inner = (candle_nn::ops::silu(&linear(&h, &gate).unwrap()).unwrap()
        * linear(&h, &up).unwrap())
    .unwrap();
    let expected = (&sum + linear(&inner, &down).unwrap()).unwrap();
    close(&output, &expected);
}

#[test]
fn scores_come_from_the_last_position() {
    let mut bench = Bench::new();
    let x = random(&[2, 3, 5]);
    let (norm, head) = (random(&[5]), random(&[11, 5]));
    bench.put(Slot::Input, &x);
    bench.put(Slot::FinalNorm, &norm);
    bench.put_map(Projection::Head, &head);
    let last = x.i((.., 2, ..)).unwrap();
    let sample = AttentionSample::new(true);

    let quantized = bench
        .eval(&quantized_qwen3_5::last_scores(3, eps()))
        .unwrap();
    let expected = linear(&sample.norm(&last, &norm, false).unwrap(), &head).unwrap();
    close(&quantized, &expected);

    let dense = bench.eval(&qwen3_5::last_scores(3, EPS.to_bits())).unwrap();
    let expected = linear(&sample.norm(&last, &norm, true).unwrap(), &head).unwrap();
    close(&dense, &expected.unsqueeze(1).unwrap());
}

fn built_config() -> qwen3_5::Config {
    qwen3_5::Config {
        text_config: qwen3_5::TextConfig {
            vocab_size: 11,
            hidden_size: 8,
            intermediate_size: 7,
            num_hidden_layers: 2,
            num_attention_heads: 4,
            num_key_value_heads: 2,
            head_dim: Some(6),
            max_position_embeddings: 10,
            rms_norm_eps: EPS.to_bits(),
            rope_parameters: qwen3_5::RopeParameters {
                rope_theta: 10000f64.to_bits(),
            },
            attention_bias: false,
            layer_types: vec!["linear_attention".to_string()],
            linear_num_key_heads: 2,
            linear_num_value_heads: 4,
            linear_key_head_dim: 3,
            linear_value_head_dim: 5,
            linear_conv_kernel_dim: 4,
        },
    }
}

fn weights_of(layer: &qwen3_5::Qwen3_5DecoderLayer) -> Bench {
    let mut bench = Bench::new();
    let (cos, sin) = tables(6, 10);
    bench.put(Slot::Cos, &cos);
    bench.put(Slot::Sin, &sin);
    let mut maps = vec![
        (Projection::Gate, &layer.mlp.gate_proj),
        (Projection::Up, &layer.mlp.up_proj),
        (Projection::Down, &layer.mlp.down_proj),
    ];
    bench.put(Slot::MixerNorm, &random(&[layer.input_layernorm.dim]));
    bench.put(Slot::MlpNorm, &random(&[layer.post_attention_layernorm.dim]));
    match &layer.token_mixer {
        qwen3_5::TokenMixer::FullAttention(w) => {
            maps.push((Projection::Query, &w.q_proj));
            maps.push((Projection::Key, &w.k_proj));
            maps.push((Projection::Value, &w.v_proj));
            maps.push((Projection::Output, &w.o_proj));
            bench.put(Slot::QueryNorm, &random(&[w.q_norm.dim]));
            bench.put(Slot::KeyNorm, &random(&[w.k_norm.dim]));
        }
        qwen3_5::TokenMixer::LinearAttention(w) => {
            maps.push((Projection::MixedQkv, &w.in_proj_qkv));
            maps.push((Projection::MixerGate, &w.in_proj_z));
            maps.push((Projection::Beta, &w.in_proj_b));
            maps.push((Projection::Alpha, &w.in_proj_a));
            maps.push((Projection::MixerOutput, &w.out_proj));
            bench.put(Slot::DtBias, &random(&[w.dims.num_v_heads]));
            bench.put(Slot::NegativeDecay, &random(&[w.dims.num_v_heads]));
            bench.put(Slot::GatedNorm, &random(&[w.dims.head_v_dim]));
            bench.conv = Some(Conv1d::new(
                random(&[w.dims.conv_dim, 1, w.dims.conv_kernel_size]),
                None,
                Conv1dConfig {
                    groups: w.dims.conv_dim,
                    ..Default::default()
                },
            ));
        }
    }
    for (map, weights) in maps {
        bench.put_map(map, &random(&[weights.out_dim, weights.in_dim]));
    }
    bench
}

#[test]
fn a_built_model_runs_on_the_weights_that_it_asks_for() {
    let config = built_config();
    assert!(config.can_load());
    let mut model = qwen3_5::ModelForCausalLM::new(&config, true);
    assert!(model.base_model.is_runnable());
    let mut layers: Vec<Bench> = model.base_model.layers.iter().map(weights_of).collect();
    let mut shared = Bench::new();
    let head = model.lm_head.as_ref().unwrap();
    shared.put_map(Projection::Head, &random(&[head.out_dim, head.in_dim]));
    shared.put(Slot::FinalNorm, &random(&[model.base_model.norm.dim]));
    let mut past = 0;
    for len in [3usize, 2, 1, 1] {
        let pass = model.forward(1, len, past);
        let ids: Vec<u32> = (0..len as u32).collect();
        let ids = Tensor::from_vec(ids, (1, len), &Device::Cpu).unwrap();
        shared.put(Slot::Input, &ids);
        let mut hidden = shared.eval(&pass.hidden).unwrap();
        let mask = pass.mask.as_ref().map(|mask| shared.eval(mask).unwrap());
        assert_eq!(mask.is_some(), len > 1);
        for (bench, layer) in layers.iter_mut().zip(&pass.layers) {
            assert_eq!(hidden.dims(), &[1, len, 8]);
            bench.put(Slot::Input, &hidden);
            if let Some(mask) = &mask {
                bench.put(Slot::Mask, mask);
            }
            hidden = bench.eval(&layer.output).unwrap();
            bench.keep(&layer.kept).unwrap();
        }
        past += len;
        assert_eq!(layers[0].slots[&Slot::ConvState].dims(), &[1, 32, 3]);
        assert_eq!(layers[0].slots[&Slot::RecurrentState].dims(), &[1, 4, 3, 5]);
        assert_eq!(layers[1].slots[&Slot::CachedKeys].dims(), &[1, 2, past, 6]);
        shared.put(Slot::Input, &hidden);
        assert_eq!(shared.eval(&pass.last).unwrap().dims(), &[1, 1, 11]);
    }
}

#[test]
fn repeated_heads_stand_next_to_each_other() {
    let mut bench = Bench::new();
    let x = random(&[1, 2, 2, 3]);
    bench.put(Slot::Input, &x);
    let dims = Heads {
        batch: 1,
        len: 2,
        heads: 2,
        width: 3,
    };
    let twice = bench
        .eval(&repeat_interleave(&input(), 2, dims))
        .unwrap();
    assert_eq!(twice.dims(), &[1, 2, 4, 3]);
    for head in 0..4 {
        close(
            &twice.i((.., .., head, ..)).unwrap(),
            &x.i((.., .., head / 2, ..)).unwrap(),
        );
    }
    close(&bench.eval(&repeat_interleave(&input(), 1, dims)).unwrap(), &x);
}

#[test]
fn the_mask_hides_later_positions() {
    let mut bench = Bench::new();
    let mask = bench.eval(&quantized_qwen3_5::causal_mask(3)).unwrap();
    assert_eq!(mask.dims(), &[1, 1, 3, 3]);
    let rows: Vec<Vec<f32>> = mask.i((0, 0)).unwrap().to_vec2().unwrap();
    let no = f32::NEG_INFINITY;
    assert_eq!(rows, vec![vec![0.0, no, no], vec![0.0, 0.0, no], vec![0.0, 0.0, 0.0]]);
}

#[test]
fn later_positions_do_not_change_quantized_attention() {
    for gated in [true, false] {
        let sample = AttentionSample::new(gated);
        let x = random(&[2, 5, 5]);
        let other = Tensor::cat(&[&x.narrow(1, 0, 3).unwrap(), &random(&[2, 2, 5])], 1).unwrap();
        let mut outputs = Vec::new();
        for input_of_pass in [&x, &other] {
            let mut layer = AttentionWeights {
                num_heads: sample.h,
                num_kv_heads: sample.kv,
                num_kv_groups: sample.h / sample.kv,
                head_dim: sample.d,
                q_out_dim: sample.q.dim(0).unwrap(),
                q_norm: true,
                k_norm: true,
                q_bias: false,
                k_bias: false,
                v_bias: false,
                norm_eps: eps(),
                cached: false,
            };
            let mut bench = sample.bench();
            bench.put(Slot::Input, input_of_pass);
            let mask = bench.eval(&quantized_qwen3_5::causal_mask(5)).unwrap();
            bench.put(Slot::Mask, &mask);
            let pass = layer.forward(&input(), step(2, 5, 0));
            outputs.push((
                bench.eval(&pass.output).unwrap(),
                bench.eval(&pass.keys).unwrap(),
                bench.eval(&pass.values).unwrap(),
            ));
        }
        let seen = |t: &Tensor, dim: usize| t.narrow(dim, 0, 3).unwrap();
        close(&seen(&outputs[0].0, 1), &seen(&outputs[1].0, 1));
        close(&seen(&outputs[0].1, 2), &seen(&outputs[1].1, 2));
        close(&seen(&outputs[0].2, 2), &seen(&outputs[1].2, 2));
        let last = |t: &Tensor| t.narrow(1, 3, 2).unwrap();
        let difference = (last(&outputs[0].0) - last(&outputs[1].0)).unwrap();
        let size: f32 = difference.sqr().unwrap().sum_all().unwrap().to_scalar().unwrap();
        assert!(size > 1e-3);
    }
}

#[test]
fn the_delta_rule_runs_in_two_pieces() {
    let inputs = DeltaInputs {
        query: Rc::new(Node::Leaf(Slot::Input)),
        key: Rc::new(Node::Leaf(Slot::KeyBias)),
        value: Rc::new(Node::Leaf(Slot::ValueBias)),
        decay: Rc::new(Node::Leaf(Slot::Cos)),
        beta: Rc::new(Node::Leaf(Slot::Sin)),
    };
    let dims = |len: usize| DeltaDims {
        batch: 1,
        heads: 3,
        len,
        key_width: 4,
        value_width: 5,
    };
    let tensors = [
        (Slot::Input, random(&[1, 6, 3, 4])),
        (Slot::KeyBias, random(&[1, 6, 3, 4])),
        (Slot::ValueBias, random(&[1, 6, 3, 5])),
        (Slot::Cos, random(&[1, 6, 3]).sqr().unwrap().neg().unwrap()),
        (Slot::Sin, candle_nn::ops::sigmoid(&random(&[1, 6, 3])).unwrap()),
    ];
    let run = |start: usize, len: usize, state: Option<&Tensor>| {
        let mut bench = Bench::new();
        for (slot, tensor) in &tensors {
            bench.put(*slot, &tensor.narrow(1, start, len).unwrap());
        }
        if let Some(state) = state {
            bench.put(Slot::RecurrentState, state);
        }
        let rule = torch_recurrent_gated_delta_rule(&inputs, dims(len), state.is_some());
        (
            bench.eval(&answers(&rule)).unwrap(),
            bench.eval(&Node::ScanState { scan: rule }).unwrap(),
        )
    };
    let (whole, end) = run(0, 6, None);
    let (first, between) = run(0, 2, None);
    let (second, last) = run(2, 4, Some(&between));
    close(&Tensor::cat(&[&first, &second], 1).unwrap(), &whole);
    close(&last, &end);
    assert_eq!(end.dims(), &[1, 3, 4, 5]);
}

#[test]
fn the_convolution_can_be_fed_in_pieces() {
    let x = random(&[2, 4, 6]);
    let weight = random(&[4, 3]);
    let mut bench = Bench::new();
    bench.put(Slot::ConvWeight, &weight);
    bench.conv = Some(Conv1d::new(
        weight.unsqueeze(1).unwrap(),
        None,
        Conv1dConfig {
            groups: 4,
            ..Default::default()
        },
    ));
    for dense in [false, true] {
        let mut pass = |bench: &mut Bench, start: usize, len: usize, kept: bool| {
            bench.put(Slot::Input, &x.narrow(2, start, len).unwrap());
            let columns = padded(&input(), kept, 2, 4, 2);
            let output = if dense {
                Rc::new(Node::Apply {
                    op: SameShape::Silu,
                    x: Rc::new(Node::Conv { x: columns.clone() }),
                })
            } else {
                apply_depthwise_conv_silu(&columns, len, 3)
            };
            let output = bench.eval(&output).unwrap();
            let state = bench.eval(&last_inputs(&columns, kept, len, 2)).unwrap();
            bench.put(Slot::ConvState, &state);
            (output, state)
        };
        let (whole, end) = pass(&mut bench, 0, 6, false);
        close(&end, &x.narrow(2, 4, 2).unwrap());
        let mut pieces = vec![pass(&mut bench, 0, 1, false)];
        close(
            &pieces[0].1,
            &Tensor::cat(
                &[
                    &Tensor::zeros((2, 4, 1), DType::F32, &Device::Cpu).unwrap(),
                    &x.narrow(2, 0, 1).unwrap(),
                ],
                2,
            )
            .unwrap(),
        );
        for column in 1..6 {
            pieces.push(pass(&mut bench, column, 1, true));
        }
        let outputs: Vec<&Tensor> = pieces.iter().map(|p| &p.0).collect();
        close(&Tensor::cat(&outputs, 2).unwrap(), &whole);
        close(&pieces[5].1, &end);
    }
}

#[test]
fn later_positions_do_not_change_dense_attention() {
    let sample = AttentionSample::new(true);
    let x = random(&[2, 5, 5]);
    let other = Tensor::cat(&[&x.narrow(1, 0, 2).unwrap(), &random(&[2, 3, 5])], 1).unwrap();
    let mut outputs = Vec::new();
    for input_of_pass in [&x, &other] {
        let mut layer = dense_attention(&sample);
        let mut bench = sample.bench();
        bench.put(Slot::Input, input_of_pass);
        let mask = qwen3_5::prepare_causal_attention_mask(2, 5, 0);
        let mask = bench.eval(&mask).unwrap();
        bench.put(Slot::Mask, &mask);
        let pass = layer.forward(&input(), step(2, 5, 0));
        outputs.push((
            bench.eval(&pass.output).unwrap(),
            bench.eval(&pass.values).unwrap(),
        ));
    }
    let seen = |t: &Tensor, dim: usize| t.narrow(dim, 0, 2).unwrap();
    close(&seen(&outputs[0].0, 1), &seen(&outputs[1].0, 1));
    close(&seen(&outputs[0].1, 2), &seen(&outputs[1].1, 2));
}
