use llm_lzh::arith::Arith;
use llm_lzh::attention::{attention_score, attn_out, softmax, store_kv};
use llm_lzh::bench::GlobalMonitor;
use llm_lzh::dot::{dot_avx2_bf16, dot_avx2_q8};
use llm_lzh::forward::forward;
use llm_lzh::json::raw_to_json;
use llm_lzh::linear::{linear_proj, res_conn, token_embedding};
use llm_lzh::loader::SafttensorsLoader;
use llm_lzh::model::{new_caches, Buffers, LayerWeights, Model};
use llm_lzh::norm::{rmsnorm_bf16, rmsnorm_f32};
use llm_lzh::project::{mlp_mul, mlp_mul_rayon, mlp_mul_single, out_proj, out_proj_rayon, out_proj_single};
use llm_lzh::quantize::{
    frame, is_tensor_name, plan_layout, quantize_block, quantize_tensor, widen, TensorInfo,
};
use llm_lzh::rope::apply_rope;
use llm_lzh::sampling::{choose_token, random, random_at, random_from};
use llm_lzh::session::{Config, Session};
use llm_lzh::tensor::{BlockQ8_0, Tensor, WeightData, WeightTensor};
use llm_lzh::weights::{get_weight_matrix, read_header, StoredData, StoredWeight};

struct F32;

impl Arith<f32> for F32 {
    fn from_bits(&self, bits: u32) -> f32 {
        f32::from_bits(bits)
    }
    fn to_bits(&self, a: f32) -> u32 {
        a.to_bits()
    }
    fn from_i8(&self, n: i8) -> f32 {
        n as f32
    }
    fn from_usize(&self, n: usize) -> f32 {
        n as f32
    }
    fn from_u32(&self, n: u32) -> f32 {
        n as f32
    }
    fn to_i8(&self, a: f32) -> i8 {
        a as i8
    }
    fn add(&self, a: f32, b: f32) -> f32 {
        a + b
    }
    fn sub(&self, a: f32, b: f32) -> f32 {
        a - b
    }
    fn mul(&self, a: f32, b: f32) -> f32 {
        a * b
    }
    fn div(&self, a: f32, b: f32) -> f32 {
        a / b
    }
    fn mul_add(&self, a: f32, b: f32, c: f32) -> f32 {
        a.mul_add(b, c)
    }
    fn neg(&self, a: f32) -> f32 {
        -a
    }
    fn abs(&self, a: f32) -> f32 {
        a.abs()
    }
    fn sqrt(&self, a: f32) -> f32 {
        a.sqrt()
    }
    fn exp(&self, a: f32) -> f32 {
        a.exp()
    }
    fn sin(&self, a: f32) -> f32 {
        a.sin()
    }
    fn cos(&self, a: f32) -> f32 {
        a.cos()
    }
    fn round(&self, a: f32) -> f32 {
        a.round()
    }
    fn powf(&self, base: f32, exponent: f32) -> f32 {
        base.powf(exponent)
    }
    fn max(&self, a: f32, b: f32) -> f32 {
        a.max(b)
    }
    fn clamp(&self, a: f32, low: f32, high: f32) -> f32 {
        a.clamp(low, high)
    }
    fn lt(&self, a: f32, b: f32) -> bool {
        a < b
    }
    fn le(&self, a: f32, b: f32) -> bool {
        a <= b
    }
    fn eq(&self, a: f32, b: f32) -> bool {
        a == b
    }
}


fn near(a: f32, b: f32) {
    assert!((a - b).abs() < 1e-5, "left: {}, right: {}", a, b);
}

fn halves(values: &[f32]) -> Vec<u16> {
    values.iter().map(|v| (v.to_bits() >> 16) as u16).collect()
}

fn half_bytes(values: &[f32]) -> Vec<u8> {
    halves(values).iter().flat_map(|w| w.to_le_bytes()).collect()
}

fn bf16<'a>(words: &'a [u16], shape: &[usize]) -> WeightTensor<'a, f32> {
    WeightTensor::new(WeightData::BF16(words), shape.to_vec())
}

fn tensor(data: &[f32], shape: &[usize]) -> Tensor<f32> {
    Tensor::new(data.to_vec(), shape.to_vec())
}

// ---- Kernels ----

#[test]
fn half_words_are_multiplied_in_groups_and_behind_them() {
    let x: Vec<f32> = (0..40).map(|i| i as f32).collect();
    let w = halves(&vec![2.0; 40]);
    assert_eq!(dot_avx2_bf16(&F32, &x, &w), 1560.0);
    assert_eq!(dot_avx2_bf16(&F32, &x[..3], &w[..3]), 6.0);
    assert_eq!(dot_avx2_bf16(&F32, &[], &[]), 0.0);
}

#[test]
fn blocks_are_multiplied_with_their_scale() {
    let x: Vec<f32> = (0..64).map(|i| i as f32).collect();
    let blocks =
        vec![BlockQ8_0 { d: 0.5, qs: [2i8; 32] }, BlockQ8_0 { d: 2.0, qs: [-1i8; 32] }];
    assert_eq!(dot_avx2_q8(&F32, &x, &blocks), 496.0 - 2.0 * 1520.0);
}

#[test]
fn embedding_of_numbers_is_refused() {
    let numbers = vec![1.0f32, 2.0];
    let w = WeightTensor::new(WeightData::F32(&numbers), vec![1, 2]);
    let mut x = tensor(&[7.0], &[1]);
    let e = token_embedding(&F32, &vec![0], &w, &mut x).unwrap_err();
    assert_eq!(e, "cannot be f32 weight");
    assert!(x.data.is_empty());
}

#[test]
fn embedding_of_blocks_is_scaled() {
    let blocks =
        vec![BlockQ8_0 { d: 1.0, qs: [1i8; 32] }, BlockQ8_0 { d: 0.5, qs: [-3i8; 32] }];
    let w = WeightTensor::new(WeightData::Q8(&blocks), vec![2, 32]);
    let mut x = tensor(&[], &[0]);
    token_embedding(&F32, &vec![1, 0], &w, &mut x).unwrap();
    assert_eq!(x.shape, vec![2, 32]);
    assert_eq!(x.data[..32], [-1.5f32; 32]);
    assert_eq!(x.data[32..], [1.0f32; 32]);
}

#[test]
fn a_row_that_is_not_whole_is_zero_after_the_norm() {
    let x = tensor(&[3.0, 4.0, 9.0], &[3]);
    let words = halves(&[1.0, 1.0]);
    let out = rmsnorm_bf16(&F32, &x, &bf16(&words, &[2]), 2, 0.0).unwrap();
    near(out.data[0], 3.0 / 12.5f32.sqrt());
    near(out.data[1], 4.0 / 12.5f32.sqrt());
    assert_eq!(out.data[2], 0.0);
    let numbers = vec![2.0f32, 2.0];
    let w = WeightTensor::new(WeightData::F32(&numbers), vec![2]);
    let out = rmsnorm_f32(&F32, &x, &w, 2, 0.0).unwrap();
    near(out.data[0], 6.0 / 12.5f32.sqrt());
}

#[test]
fn later_rows_overwrite_earlier_ones_where_the_rows_are_close() {
    let x = tensor(&[1.0, 0.0, 0.0, 1.0], &[2, 2]);
    let words = halves(&[1.0, 2.0, 3.0, 4.0]);
    let bias = halves(&[0.0, 0.0]);
    let mut q = Tensor { data: vec![9.0; 4], shape: vec![2], strides: vec![1] };
    linear_proj(&F32, &x, &bf16(&words, &[2, 2]), &bf16(&bias, &[2]), &mut q).unwrap();
    assert_eq!(q.data, vec![1.0, 2.0, 4.0, 9.0]);
}

#[test]
fn residuals_are_added_as_far_as_both_go() {
    let mut x = tensor(&[1.0, 2.0, 3.0, 4.0], &[3]);
    res_conn(&F32, &mut x, &tensor(&[10.0, 20.0], &[2]));
    assert_eq!(x.data, vec![11.0, 22.0, 3.0, 4.0]);
    res_conn(&F32, &mut x, &tensor(&[1.0; 4], &[4]));
    assert_eq!(x.data, vec![12.0, 23.0, 4.0, 4.0]);
}

#[test]
fn pairs_are_turned_by_their_position() {
    let mut t = tensor(&[1.0, 0.0, 1.0, 0.0], &[2, 1, 2]);
    apply_rope(&F32, &mut t, 10000.0, 1);
    near(t.data[0], 1.0f32.cos());
    near(t.data[1], 1.0f32.sin());
    near(t.data[2], 2.0f32.cos());
    near(t.data[3], 2.0f32.sin());
}

#[test]
fn a_query_does_not_look_ahead() {
    let q = tensor(&[1.0, 1.0], &[2, 1, 1]);
    let k = tensor(&[2.0, 3.0, 0.0], &[3, 1, 1]);
    let mut s = tensor(&[7.0; 5], &[5]);
    attention_score(&F32, &q, &k, 1, 2, 1, &mut s).unwrap();
    assert_eq!(s.shape, vec![1, 2, 2]);
    assert_eq!(s.data, vec![2.0, f32::NEG_INFINITY, 2.0, 3.0, 7.0]);
    softmax(&F32, &mut s);
    near(s.data[0], 1.0);
    assert_eq!(s.data[1], 0.0);
    near(s.data[2] + s.data[3], 1.0);
    let v = tensor(&[10.0, 20.0, 0.0], &[3, 1, 1]);
    let mut attn = tensor(&[0.0; 2], &[2]);
    attn_out(&F32, &s, &v, 1, &mut attn).unwrap();
    assert_eq!(attn.shape, vec![2, 1, 1]);
    assert!((attn.data[0] - 10.0).abs() < 1e-3);
    assert!((attn.data[1] - 17.3105).abs() < 1e-3);
}

#[test]
fn queries_and_keys_must_be_alike() {
    let q = tensor(&[1.0, 1.0], &[1, 1, 2]);
    let k = tensor(&[2.0], &[1, 1, 1]);
    let mut s = tensor(&[7.0], &[1]);
    let e = attention_score(&F32, &q, &k, 1, 1, 0, &mut s).unwrap_err();
    assert_eq!(e, "q and k hidden_dim not the same");
}

#[test]
fn the_cache_keeps_other_positions() {
    let mut cache = tensor(&[0.0; 8], &[4, 1, 2]);
    store_kv(&mut cache, &tensor(&[1.0, 2.0, 3.0, 4.0], &[2, 1, 2]), 0, 1, 2);
    store_kv(&mut cache, &tensor(&[5.0, 6.0, 9.0], &[1, 1, 2]), 2, 1, 2);
    assert_eq!(cache.data, vec![1.0, 2.0, 3.0, 4.0, 5.0, 6.0, 0.0, 0.0]);
}

#[test]
fn projections_agree_on_one_thread_and_on_many() {
    let attn = tensor(&(0..70).map(|i| i as f32).collect::<Vec<f32>>(), &[2, 35]);
    let words = halves(&(0..35 * 35).map(|i| (i % 7) as f32).collect::<Vec<f32>>());
    let o = bf16(&words, &[35, 35]);
    let mut a = tensor(&[1.0; 80], &[80]);
    let mut b = tensor(&[2.0; 80], &[80]);
    let mut c = tensor(&[3.0; 80], &[80]);
    out_proj(&F32, &attn, &o, &mut a).unwrap();
    out_proj_single(&F32, &attn, &o, &mut b).unwrap();
    out_proj_rayon(&F32, &attn, &o, &mut c).unwrap();
    assert_eq!(a.data, b.data);
    assert_eq!(a.data, c.data);
    assert_eq!(a.data[70..], [0.0f32; 10]);
    let first: f32 = (0..35).map(|i| i as f32 * (i % 7) as f32).sum();
    assert_eq!(a.data[0], first);
}

#[test]
fn feed_forward_layers_agree_on_one_thread_and_on_many() {
    let x = tensor(&(0..64).map(|i| i as f32).collect::<Vec<f32>>(), &[2, 32]);
    let blocks: Vec<BlockQ8_0<f32>> =
        (0..3).map(|k| BlockQ8_0 { d: 0.5, qs: [k as i8; 32] }).collect();
    let w = WeightTensor::new(WeightData::Q8(&blocks), vec![3, 32]);
    let mut a = tensor(&[9.0; 8], &[8]);
    let mut b = tensor(&[9.0; 8], &[8]);
    let mut c = tensor(&[9.0; 8], &[8]);
    mlp_mul(&F32, &x, &w, &mut a).unwrap();
    mlp_mul_single(&F32, &x, &w, &mut b).unwrap();
    mlp_mul_rayon(&F32, &x, &w, &mut c).unwrap();
    assert_eq!(a.shape, vec![2, 3]);
    assert_eq!(a.data, vec![0.0, 248.0, 496.0, 0.0, 760.0, 1520.0, 9.0, 9.0]);
    assert_eq!(a.data, b.data);
    assert_eq!(a.data, c.data);
}

// ---- Files ----

fn file(header: &str, body: &[u8]) -> Vec<u8> {
    let mut bytes = frame(header.as_bytes());
    bytes.extend_from_slice(body);
    bytes
}

fn weight(header: &str, body: &[u8]) -> Result<StoredWeight<f32>, String> {
    let bytes = file(header, body);
    let loader = SafttensorsLoader::new(&bytes)?;
    loader.get_weight_matrix(&F32, "w")
}

#[test]
fn bytes_that_are_no_json_are_refused() {
    assert_eq!(raw_to_json(b"\xff{}").unwrap_err(), "json cannot convert to string.");
    assert_eq!(raw_to_json(b"{").unwrap_err(), "json String cannot convert to json format.");
}

#[test]
fn a_header_is_read_back() {
    let bytes = file("{}", b"abc");
    assert_eq!(bytes[..8], [2, 0, 0, 0, 0, 0, 0, 0]);
    assert_eq!(read_header(&bytes), Some((2, &b"{}"[..])));
    assert_eq!(read_header(&bytes[..9]), None);
    assert_eq!(read_header(&bytes[..7]), None);
    assert!(SafttensorsLoader::new(&bytes[..9]).is_err());
}

#[test]
fn half_words_are_read() {
    let w = weight(
        r#"{"w": {"dtype": "BF16", "shape": [1, 2], "data_offsets": [1, 5]}}"#,
        &[9, 0x80, 0x3f, 0x00, 0x40],
    )
    .unwrap();
    let t = w.tensor();
    assert_eq!((t.shape, t.strides), (vec![1, 2], vec![2, 1]));
    assert!(matches!(t.data, WeightData::BF16(s) if s == [0x3f80, 0x4000]));
}

#[test]
fn blocks_and_numbers_are_read() {
    let mut body = 2.0f32.to_le_bytes().to_vec();
    body.extend((0..32).map(|i| (i as i8 - 16) as u8));
    let w = weight(
        r#"{"w": {"dtype": "Q8_0", "shape": [1, 32], "data_offsets": [0, 36]}}"#,
        &body,
    )
    .unwrap();
    match &w.data {
        StoredData::Q8(blocks) => {
            assert_eq!(blocks.len(), 1);
            assert_eq!(blocks[0].d, 2.0);
            assert_eq!((blocks[0].qs[0], blocks[0].qs[31]), (-16, 15));
        }
        _ => panic!("no blocks"),
    }
    let w = weight(
        r#"{"w": {"dtype": "F32", "shape": [2], "data_offsets": [0, 8]}}"#,
        &[0, 0, 0x80, 0x3f, 0, 0, 0x20, 0xc0],
    )
    .unwrap();
    assert!(matches!(&w.data, StoredData::F32(v) if v[..] == [1.0, -2.5]));
}

#[test]
fn each_fault_of_a_weight_has_its_message() {
    let fault = |entry: &str, body: &[u8]| match weight(&format!("{{\"w\": {}}}", entry), body) {
        Ok(_) => panic!("a weight was read"),
        Err(e) => e,
    };
    assert_eq!(fault("{}", &[]), "cannot extract token offset");
    assert_eq!(fault(r#"{"data_offsets": [0, -1]}"#, &[]), "cannot convert num to u64.");
    assert_eq!(fault(r#"{"data_offsets": [0, 0]}"#, &[]), "cannot extract dtype.");
    assert_eq!(
        fault(r#"{"data_offsets": [0, 0], "dtype": "F32"}"#, &[]),
        "cannot extract token shape"
    );
    assert_eq!(
        fault(r#"{"data_offsets": [0, 0], "dtype": "F32", "shape": ["a"]}"#, &[]),
        "cannot convert num to u64."
    );
    let outside = "weight does not fit the file";
    assert_eq!(fault(r#"{"data_offsets": [0], "dtype": "F32", "shape": []}"#, &[]), outside);
    assert_eq!(fault(r#"{"data_offsets": [1, 0], "dtype": "F32", "shape": []}"#, &[0]), outside);
    assert_eq!(fault(r#"{"data_offsets": [0, 5], "dtype": "F32", "shape": []}"#, &[0; 4]), outside);
    assert_eq!(
        fault(
            r#"{"data_offsets": [0, 4], "dtype": "F32", "shape": [4294967296, 4294967296, 1]}"#,
            &[0; 4]
        ),
        outside
    );
    assert_eq!(
        fault(r#"{"data_offsets": [0, 3], "dtype": "BF16", "shape": []}"#, &[0; 3]),
        "cannot convert to &[f32]"
    );
    assert_eq!(
        fault(r#"{"data_offsets": [0, 3], "dtype": "Q8_0", "shape": [1, 1]}"#, &[0; 3]),
        "cannot convert to &[q8]"
    );
    assert_eq!(
        fault(r#"{"data_offsets": [0, 3], "dtype": "F32", "shape": [1]}"#, &[0; 3]),
        "cannot convert to &[q8]"
    );
}

#[test]
fn weights_are_found_by_their_name() {
    let header = raw_to_json(
        br#"{"a": {"dtype": "F32", "shape": [1], "data_offsets": [0, 4]},
             "b": {"dtype": "F32", "shape": [1], "data_offsets": [4, 8]}}"#,
    )
    .unwrap();
    let bytes = [0, 0, 0, 0, 0, 0, 0, 0, 7, 0, 0, 0x80, 0x3f, 0, 0, 0, 0x40];
    for (name, value) in [("a", 1.0f32), ("b", 2.0)] {
        let w: StoredWeight<f32> = get_weight_matrix(&F32, name, &header, &bytes, 1).unwrap();
        assert!(matches!(&w.data, StoredData::F32(v) if v[..] == [value]));
    }
    assert!(get_weight_matrix::<f32, F32>(&F32, "c", &header, &bytes, 1).is_err());
}

// ---- Quantizing ----

fn info(name: &str, dtype: &str, shape: &[usize], from: usize, to: usize) -> (String, TensorInfo) {
    (
        name.to_string(),
        TensorInfo { dtype: dtype.to_string(), shape: shape.to_vec(), data_offsets: [from, to] },
    )
}

#[test]
fn a_block_is_quantized_by_its_greatest_magnitude() {
    let mut values = [0.0f32; 32];
    values[0] = -127.0;
    values[1] = 63.0;
    values[2] = 1.0;
    let block = quantize_block(&F32, &half_bytes(&values));
    assert_eq!(block.d, 1.0);
    assert_eq!(block.qs[..4], [-127, 63, 1, 0]);
    let block = quantize_block(&F32, &half_bytes(&[0.0; 32]));
    assert_eq!((block.d, block.qs), (0.0, [0i8; 32]));
    values[0] = 254.0;
    values[1] = 3.0;
    let block = quantize_block(&F32, &half_bytes(&values));
    assert_eq!(block.d, 2.0);
    assert_eq!(block.qs[..3], [127, 2, 1]);
}

#[test]
fn half_words_are_widened() {
    assert_eq!(widen(&[0x80, 0x3f, 0x20, 0xc0, 7]), vec![0, 0, 0x80, 0x3f, 0, 0, 0x20, 0xc0]);
    assert_eq!(quantize_tensor(&F32, 1, &[0x80, 0x3f]), vec![0, 0, 0x80, 0x3f]);
    assert_eq!(quantize_tensor(&F32, 3, &[1]), Vec::<u8>::new());
}

#[test]
fn tensors_are_placed_one_behind_the_other() {
    let infos =
        vec![info("a", "BF16", &[2, 32], 0, 128), info("b", "BF16", &[3], 128, 134), info("c", "BF16", &[], 134, 136)];
    let plan = plan_layout(&infos).unwrap();
    let seen: Vec<(&str, &str, [usize; 2])> =
        plan.iter().map(|(n, i)| (n.as_str(), i.dtype.as_str(), i.data_offsets)).collect();
    assert_eq!(
        seen,
        vec![("a", "Q8_0", [0, 72]), ("b", "F32", [72, 84]), ("c", "F32", [84, 88])]
    );
    assert_eq!(plan[0].1.shape, vec![2, 32]);
    assert!(plan_layout(&vec![]).unwrap().is_empty());
    assert!(is_tensor_name("model.norm.weight"));
    assert!(!is_tensor_name("__metadata__"));
}

#[test]
fn tensors_that_cannot_be_placed_are_refused() {
    let refusal = |shape: &[usize]| match plan_layout(&vec![info("a", "BF16", shape, 0, 0)]) {
        Ok(_) => panic!("a plan was made"),
        Err(e) => e,
    };
    assert_eq!(refusal(&[3, 5]), " cannot align with 32 size block");
    assert_eq!(refusal(&[usize::MAX, 2]), "tensor too large");
    assert_eq!(refusal(&[usize::MAX]), "tensor too large");
}

#[test]
fn a_quantized_file_is_read_back() {
    let matrix: Vec<f32> = (0..64).map(|i| (i % 32) as f32 * 4.0 - 60.0).collect();
    let sources = [half_bytes(&matrix), half_bytes(&[1.0, -2.5])];
    let infos = vec![info("m", "BF16", &[2, 32], 0, 128), info("v", "BF16", &[2], 128, 132)];
    let plan = plan_layout(&infos).unwrap();
    let header = format!(
        "{{\"m\": {{\"dtype\": \"{}\", \"shape\": [2, 32], \"data_offsets\": {:?}}}, \
          \"v\": {{\"dtype\": \"{}\", \"shape\": [2], \"data_offsets\": {:?}}}}}",
        plan[0].1.dtype, plan[0].1.data_offsets, plan[1].1.dtype, plan[1].1.data_offsets
    );
    let mut bytes = frame(header.as_bytes());
    for (source, (_, info)) in sources.iter().zip(&infos) {
        bytes.extend(quantize_tensor(&F32, info.shape.len(), source));
    }
    let loader = SafttensorsLoader::new(&bytes).unwrap();
    let m: StoredWeight<f32> = loader.get_weight_matrix(&F32, "m").unwrap();
    match &m.data {
        StoredData::Q8(blocks) => {
            for (k, block) in blocks.iter().enumerate() {
                let written = quantize_block(&F32, &sources[0][64 * k..64 * k + 64]);
                assert_eq!((block.d, block.qs), (written.d, written.qs));
                for (q, v) in block.qs.iter().zip(&matrix) {
                    assert!((*q as f32 * block.d - v).abs() <= block.d);
                }
            }
            assert_eq!(blocks.len(), 2);
        }
        _ => panic!("no blocks"),
    }
    let v: StoredWeight<f32> = loader.get_weight_matrix(&F32, "v").unwrap();
    assert!(matches!(&v.data, StoredData::F32(v) if v[..] == [1.0, -2.5]));
}

// ---- Sampling ----

#[test]
fn random_numbers_come_from_their_seed() {
    assert_eq!(random_from(&F32, 0), 0.0);
    assert_eq!(random_from(&F32, 1), 270369u32 as f32 / u32::MAX as f32);
    assert_ne!(random_from(&F32, 1), random_from(&F32, 123456));
    let r = random(&F32).unwrap();
    assert!((0.0..=1.0).contains(&r));
}

#[test]
fn the_seed_is_the_low_half_of_the_nanoseconds() {
    let time = std::time::Duration::from_nanos(0x5_0000_0001);
    assert_eq!(random_at(&F32, Some(time)), Ok(random_from(&F32, 1)));
    assert_eq!(random_at(&F32, None), Err("cannot get current time".to_string()));
}

#[test]
fn strides_need_not_be_those_of_the_shape() {
    let mut t = Tensor { data: vec![0.0, 9.0, 1.0, 9.0], shape: vec![1, 1, 2], strides: vec![7, 5, 2] };
    softmax(&F32, &mut t);
    let e = 1.0f32.exp();
    near(t.data[0], 1.0 / (1.0 + e));
    near(t.data[2], e / (1.0 + e));
    assert_eq!((t.data[1], t.data[3]), (9.0, 9.0));

    let mut t = Tensor { data: vec![1.0, 9.0, 0.0], shape: vec![1, 1, 2], strides: vec![0, 0, 2] };
    apply_rope(&F32, &mut t, 10000.0, 1);
    near(t.data[0], 1.0f32.cos());
    near(t.data[2], 1.0f32.sin());
    assert_eq!(t.data[1], 9.0);

    let mut x = Tensor { data: vec![1.0, 2.0, 3.0], shape: vec![2], strides: vec![] };
    res_conn(&F32, &mut x, &tensor(&[10.0, 20.0, 30.0], &[3]));
    assert_eq!(x.data, vec![11.0, 22.0, 3.0]);
}

#[test]
fn a_likely_token_is_chosen() {
    assert_eq!(choose_token(&F32, &vec![0.0, 20.0, 0.0], 0.5), Some((1, 1.0)));
    assert_eq!(choose_token(&F32, &vec![0.0, 20.0, 0.0], 0.0), Some((1, 1.0)));
    assert_eq!(choose_token(&F32, &vec![-20.0, -40.0], 0.5), Some((0, 1.0)));
}

#[test]
fn the_draw_goes_by_the_sums_before_a_token() {
    let logits = vec![0.0, 0.0, 0.0];
    let token = |random: f32| choose_token(&F32, &logits, random).unwrap().0;
    assert_eq!(token(0.2), 1);
    assert_eq!(token(0.5), 2);
    assert_eq!(token(0.0), 0);
    assert_eq!(token(0.9), 0);
    let (_, score) = choose_token(&F32, &logits, 0.5).unwrap();
    near(score, 1.0 / 3.0);
}

#[test]
fn token_zero_gives_way_to_the_first() {
    let logits = vec![1.0, 1.2, 1.1];
    assert_eq!(choose_token(&F32, &logits, 0.0).unwrap().0, 1);
    assert_eq!(choose_token(&F32, &logits, 0.3).unwrap().0, 2);
    assert_eq!(choose_token(&F32, &logits, 0.6).unwrap().0, 1);
}

#[test]
fn without_logits_no_token_is_chosen() {
    assert_eq!(choose_token(&F32, &vec![], 0.5), None);
}

// ---- The forward pass ----

#[test]
fn a_model_without_effect_gives_the_normalised_embedding() {
    let c = Config {
        layer_count: 1,
        hidden_dim: 2,
        num_attention_heads: 1,
        num_key_value_heads: 1,
        intermediate_size: 2,
        vocab_size: 3,
    };
    let embed = halves(&[3.0, 4.0, 1.0, 0.0, 0.0, 1.0]);
    let ones = halves(&[1.0, 1.0]);
    let none = halves(&[0.0; 4]);
    let square = |w: &'static [u16]| bf16(w, &[2, 2]);
    let none: &'static [u16] = Vec::leak(none);
    let bias = || bf16(&none[..2], &[2]);
    let layer = LayerWeights {
        input_layernorm: bf16(&ones, &[2]),
        q_weight: square(none),
        q_bias: bias(),
        k_weight: square(none),
        k_bias: bias(),
        v_weight: square(none),
        v_bias: bias(),
        o_proj: square(none),
        post_attn_layernorm: bf16(&ones, &[2]),
        mlp_gate: square(none),
        mlp_up: square(none),
        mlp_down: square(none),
    };
    let model = Model {
        embed_weight: bf16(&embed, &[3, 2]),
        norm_weight: bf16(&ones, &[2]),
        layers: vec![layer],
    };
    assert!(model.fits(&c));
    assert!(!model.fits(&Config { vocab_size: 4, ..c }));
    assert!(!model.fits(&Config { intermediate_size: 1, ..c }));
    assert!(!model.fits(&Config { layer_count: 2, ..c }));

    let mut session = Session::new(&vec![1, 0]);
    let mut k = new_caches(&F32, &c).unwrap();
    let mut v = new_caches(&F32, &c).unwrap();
    let mut b = Buffers::new(&F32, &c, 2).unwrap();
    let mut monitor = GlobalMonitor::new();
    assert_eq!((k.len(), k[0].data.len(), b.s.data.len()), (1, 4096, 4096));
    forward(&F32, &c, &model, 0.0, 10000.0, &session, &mut k, &mut v, &mut b, &mut monitor);
    assert_eq!(b.x.data, vec![1.0, 0.0, 3.0, 4.0]);
    assert_eq!(monitor.accum_times[7], std::time::Duration::ZERO);
    assert_eq!(monitor.accum_times[9], std::time::Duration::ZERO);
    assert_eq!(b.logits.shape, vec![1, 3]);
    let root = 12.5f32.sqrt();
    near(b.logits.data[0], 25.0 / root);
    near(b.logits.data[1], 3.0 / root);
    near(b.logits.data[2], 4.0 / root);

    assert!(!session.advance(2));
    forward(&F32, &c, &model, 0.0, 10000.0, &session, &mut k, &mut v, &mut b, &mut monitor);
    assert_eq!(b.x.data, vec![0.0, 1.0]);
    near(b.logits.data[0], 4.0 * 2.0f32.sqrt());
    near(b.logits.data[1], 0.0);
}

#[test]
fn attention_adds_the_values_of_the_tokens_before() {
    let c = Config {
        layer_count: 1,
        hidden_dim: 2,
        num_attention_heads: 1,
        num_key_value_heads: 1,
        intermediate_size: 1,
        vocab_size: 2,
    };
    let embed = halves(&[1.0, 0.0, 0.0, 1.0]);
    let ones = halves(&[1.0, 1.0]);
    let zero = halves(&[0.0; 4]);
    let unit = halves(&[1.0, 0.0, 0.0, 1.0]);
    let shift = halves(&[8.0, 16.0]);
    let layer = LayerWeights {
        input_layernorm: bf16(&ones, &[2]),
        q_weight: bf16(&zero, &[2, 2]),
        q_bias: bf16(&zero[..2], &[2]),
        k_weight: bf16(&zero, &[2, 2]),
        k_bias: bf16(&zero[..2], &[2]),
        v_weight: bf16(&zero, &[2, 2]),
        v_bias: bf16(&shift, &[2]),
        o_proj: bf16(&unit, &[2, 2]),
        post_attn_layernorm: bf16(&ones, &[2]),
        mlp_gate: bf16(&zero[..2], &[1, 2]),
        mlp_up: bf16(&zero[..2], &[1, 2]),
        mlp_down: bf16(&zero[..2], &[2, 1]),
    };
    let model = Model {
        embed_weight: bf16(&embed, &[2, 2]),
        norm_weight: bf16(&ones, &[2]),
        layers: vec![layer],
    };
    assert!(model.fits(&c));
    let mut session = Session::new(&vec![0, 1]);
    let mut k = new_caches(&F32, &c).unwrap();
    let mut v = new_caches(&F32, &c).unwrap();
    let mut b = Buffers::new(&F32, &c, 2).unwrap();
    let mut monitor = GlobalMonitor::new();
    forward(&F32, &c, &model, 0.0, 10000.0, &session, &mut k, &mut v, &mut b, &mut monitor);
    assert_eq!(v[0].data[..5], [8.0, 16.0, 8.0, 16.0, 0.0]);
    for (x, expected) in b.x.data.iter().zip([9.0f32, 16.0, 8.0, 17.0]) {
        assert!((x - expected).abs() < 1e-3);
    }
    v[0].data[0] = 80.0;
    v[0].data[7] = 3.0;
    let (keys, values) = (k[0].data.clone(), v[0].data.clone());
    session.advance(0);
    forward(&F32, &c, &model, 0.0, 10000.0, &session, &mut k, &mut v, &mut b, &mut monitor);
    assert_eq!(v[0].data[4..6], [8.0, 16.0]);
    assert_eq!((&v[0].data[..4], &v[0].data[6..]), (&values[..4], &values[6..]));
    assert_eq!((&k[0].data[..4], &k[0].data[6..]), (&keys[..4], &keys[6..]));
    assert!((b.x.data[0] - 33.0).abs() < 1e-2);
}
