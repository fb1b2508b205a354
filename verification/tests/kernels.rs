use llm_lzh::arith::{bf16_u16_to_f32, bf16_u16_to_f32_bits, Arith};
use llm_lzh::attention::{attention_score, softmax};
use llm_lzh::linear::{linear_proj, silu, token_embedding};
use llm_lzh::norm::{rmsnorm, rmsnorm_q8};
use llm_lzh::rope::apply_rope;
use llm_lzh::tensor::{update_stride, BlockQ8_0, Tensor, WeightData, WeightTensor};

struct F32;

impl Arith<f32> for F32 {
    fn from_bits(&self, bits: u32) -> f32 {
        f32::from_bits(bits)
    }
    fn to_bits(&self, a: f32) -> u32 {
        a.to_bits()
    }
    fn from_i8(&self, n: i8) -> f32 {
        n as f32
    }
    fn from_usize(&self, n: usize) -> f32 {
        n as f32
    }
    fn from_u32(&self, n: u32) -> f32 {
        n as f32
    }
    fn to_i8(&self, a: f32) -> i8 {
        a as i8
    }
    fn add(&self, a: f32, b: f32) -> f32 {
        a + b
    }
    fn sub(&self, a: f32, b: f32) -> f32 {
        a - b
    }
    fn mul(&self, a: f32, b: f32) -> f32 {
        a * b
    }
    fn div(&self, a: f32, b: f32) -> f32 {
        a / b
    }
    fn mul_add(&self, a: f32, b: f32, c: f32) -> f32 {
        a.mul_add(b, c)
    }
    fn neg(&self, a: f32) -> f32 {
        -a
    }
    fn abs(&self, a: f32) -> f32 {
        a.abs()
    }
    fn sqrt(&self, a: f32) -> f32 {
        a.sqrt()
    }
    fn exp(&self, a: f32) -> f32 {
        a.exp()
    }
    fn sin(&self, a: f32) -> f32 {
        a.sin()
    }
    fn cos(&self, a: f32) -> f32 {
        a.cos()
    }
    fn round(&self, a: f32) -> f32 {
        a.round()
    }
    fn powf(&self, base: f32, exponent: f32) -> f32 {
        base.powf(exponent)
    }
    fn max(&self, a: f32, b: f32) -> f32 {
        a.max(b)
    }
    fn clamp(&self, a: f32, low: f32, high: f32) -> f32 {
        a.clamp(low, high)
    }
    fn lt(&self, a: f32, b: f32) -> bool {
        a < b
    }
    fn le(&self, a: f32, b: f32) -> bool {
        a <= b
    }
    fn eq(&self, a: f32, b: f32) -> bool {
        a == b
    }
}

fn assert_f32_eq(a: f32, b: f32) {
    assert!((a - b).abs() < 1e-2, "left: {}, right: {}", a, b);
}

fn mock_f32_to_bf16(val: f32) -> u16 {
    (val.to_bits() >> 16) as u16
}

fn mock_f32_to_q8_blocks(vals: &[f32]) -> Vec<BlockQ8_0<f32>> {
    assert!(vals.len() % 32 == 0);
    let mut blocks = Vec::new();
    for chunk in vals.chunks(32) {
        let mut max_abs = 0.0f32;
        for &v in chunk {
            if v.abs() > max_abs {
                max_abs = v.abs();
            }
        }
        let d = if max_abs == 0.0 { 1.0 } else { max_abs / 127.0 };
        let mut qs = [0i8; 32];
        for i in 0..32 {
            qs[i] = (chunk[i] / d).round() as i8;
        }
        blocks.push(BlockQ8_0 { d, qs });
    }
    blocks
}

fn convert_to_f32(num: [u8; 2]) -> Result<f32, String> {
    Ok(f32::from_bits(bf16_u16_to_f32_bits(u16::from_le_bytes(num))))
}

#[test]
fn test_update_stride_math() {
    let shape1 = vec![5];
    let stride1 = update_stride(&shape1).unwrap();
    assert_eq!(stride1, vec![1]);

    let shape2 = vec![3, 4];
    let stride2 = update_stride(&shape2).unwrap();
    assert_eq!(stride2, vec![4, 1]);

    let shape3 = vec![2, 3, 4];
    let stride3 = update_stride(&shape3).unwrap();
    assert_eq!(stride3, vec![12, 4, 1]);
}

#[test]
fn each_element_has_a_place_of_its_own() {
    let shape = vec![2, 3, 4];
    let stride = update_stride(&shape).unwrap();
    let mut seen = vec![false; 24];
    for a in 0..2 {
        for b in 0..3 {
            for c in 0..4 {
                let place = a * stride[0] + b * stride[1] + c * stride[2];
                assert!(!seen[place]);
                seen[place] = true;
            }
        }
    }
    assert_eq!(update_stride(&vec![]).unwrap(), Vec::<usize>::new());
    assert_eq!(update_stride(&vec![7, 0, 5]).unwrap(), vec![0, 5, 1]);
}

#[test]
fn test_tensor_new_allocation() {
    let data = vec![1.0, 2.0, 3.0, 4.0, 5.0, 6.0];
    let shape = vec![2, 3];

    let tensor = Tensor::new(data.clone(), shape.clone());

    assert_eq!(tensor.data, data, "物理数据脱落");
    assert_eq!(tensor.shape, shape, "维度丢失");
    assert_eq!(tensor.strides, vec![3, 1], "自旋步长计算错误");
}

#[test]
fn test_convert_to_f32() {
    let bf16_bytes_1 = [0x80, 0x3F];
    let f32_val_1 = convert_to_f32(bf16_bytes_1).expect("BF16 -> F32 转换失败");
    assert_eq!(f32_val_1, 1.0);

    let bf16_bytes_2 = [0x00, 0x40];
    let f32_val_2 = convert_to_f32(bf16_bytes_2).expect("BF16 -> F32 转换失败");
    assert_eq!(f32_val_2, 2.0);

    assert_eq!(bf16_u16_to_f32(&F32, 0x3f80), 1.0);
}

#[test]
fn test_token_embedding_bf16() {
    let token_ids = vec![1];
    let raw_f32 = vec![0.1, 0.2, 0.3, 0.4, 0.5, 0.6];
    let w_data = raw_f32.iter().map(|&x| mock_f32_to_bf16(x)).collect::<Vec<u16>>();
    let weight = WeightTensor {
        data: WeightData::BF16(&w_data),
        shape: vec![2, 3],
        strides: vec![3, 1],
    };

    let mut out = Tensor::new(vec![], vec![0]);
    token_embedding(&F32, &token_ids, &weight, &mut out).unwrap();
    assert_f32_eq(out.data[0], 0.4);
    assert_f32_eq(out.data[2], 0.6);
}

#[test]
fn test_rmsnorm_bf16() {
    let x = Tensor { data: vec![3.0, 4.0], shape: vec![2], strides: vec![1] };
    let w_data = vec![1.0, 2.0].iter().map(|&x| mock_f32_to_bf16(x)).collect::<Vec<u16>>();
    let weight = WeightTensor { data: WeightData::BF16(&w_data), shape: vec![2], strides: vec![1] };
    let out = rmsnorm(&F32, &x, &weight, 2, 1e-5).unwrap();
    assert_f32_eq(out.data[0], 0.848528);
    assert_f32_eq(out.data[1], 2.262741);
}

#[test]
fn test_linear_proj_bf16() {
    let x = Tensor { data: vec![1.0, 2.0], shape: vec![1, 2], strides: vec![2, 1] };

    let w_data =
        vec![0.1, 0.2, 0.3, 0.4].iter().map(|&x| mock_f32_to_bf16(x)).collect::<Vec<u16>>();
    let w = WeightTensor { data: WeightData::BF16(&w_data), shape: vec![2, 2], strides: vec![2, 1] };

    let b_data = vec![0.1, 0.1].iter().map(|&x| mock_f32_to_bf16(x)).collect::<Vec<u16>>();
    let b = WeightTensor { data: WeightData::BF16(&b_data), shape: vec![2], strides: vec![1] };

    let mut out = Tensor::new(vec![0.0; 2], vec![0]);
    linear_proj(&F32, &x, &w, &b, &mut out).unwrap();

    assert_f32_eq(out.data[0], 0.6);
    assert_f32_eq(out.data[1], 1.2);
}

#[test]
fn test_linear_proj_q8() {
    let x_data = vec![1.0; 32];
    let x = Tensor { data: x_data, shape: vec![1, 32], strides: vec![32, 1] };

    let mut w_raw = vec![1.0; 32];
    w_raw.extend(vec![2.0; 32]);
    let q8_blocks = mock_f32_to_q8_blocks(&w_raw);
    let w =
        WeightTensor { data: WeightData::Q8(&q8_blocks), shape: vec![2, 32], strides: vec![32, 1] };

    let b_data = vec![0.5f32, 0.5f32];
    let b = WeightTensor { data: WeightData::F32(&b_data), shape: vec![2], strides: vec![1] };

    let mut out = Tensor::new(vec![0.0; 2], vec![0]);
    linear_proj(&F32, &x, &w, &b, &mut out).unwrap();

    assert_f32_eq(out.data[0], 32.5);
    assert_f32_eq(out.data[1], 64.5);
}

#[test]
fn test_rmsnorm_q8() {
    let x = Tensor { data: vec![2.0; 32], shape: vec![32], strides: vec![1] };
    let w_raw = vec![0.5; 32];
    let q8_blocks = mock_f32_to_q8_blocks(&w_raw);
    let weight =
        WeightTensor { data: WeightData::Q8(&q8_blocks), shape: vec![32], strides: vec![1] };

    let out = rmsnorm_q8(&F32, &x, &weight, 32, 1e-5).unwrap();
    assert_f32_eq(out.data[0], 0.5);
    assert_f32_eq(out.data[31], 0.5);
}

#[test]
fn test_apply_rope() {
    let mut t = Tensor { data: vec![1.0, 1.0], shape: vec![1, 1, 2], strides: vec![2, 2, 1] };
    apply_rope(&F32, &mut t, 10000.0, 0);
    assert_f32_eq(t.data[0], 1.0);
    assert_f32_eq(t.data[1], 1.0);
}

#[test]
fn test_attention_score() {
    let q = Tensor { data: vec![1.0, 2.0], shape: vec![1, 1, 2], strides: vec![2, 2, 1] };
    let k = Tensor { data: vec![2.0, 3.0], shape: vec![1, 1, 2], strides: vec![2, 2, 1] };
    let mut out = Tensor::new(vec![0.0; 10], vec![0]);

    attention_score(&F32, &q, &k, 1, 1, 0, &mut out).unwrap();
    assert_f32_eq(out.data[0], 5.65685);
}

#[test]
fn test_softmax() {
    let mut t = Tensor { data: vec![0.0, 1.0], shape: vec![1, 1, 2], strides: vec![2, 2, 1] };
    softmax(&F32, &mut t);
    assert_f32_eq(t.data[0], 0.26894);
    assert_f32_eq(t.data[1], 0.73105);
}

#[test]
fn test_silu() {
    let mut w = Tensor { data: vec![1.0], shape: vec![1], strides: vec![1] };
    let u = Tensor { data: vec![2.0], shape: vec![1], strides: vec![1] };
    silu(&F32, &mut w, &u);
    assert_f32_eq(w.data[0], 1.4621);
}
