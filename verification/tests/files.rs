use llm_lzh::arith::Arith;
use llm_lzh::loader::SafttensorsLoader;
use llm_lzh::quantize::{
    assemble, header_tensors, plan_layout, quantize_bodies, quantize_block, TensorInfo,
};
use llm_lzh::stored::StoredModel;
use llm_lzh::tensor::WeightData;
use llm_lzh::weights::{read_header, StoredData, StoredWeight};

struct F32;

impl Arith<f32> for F32 {
    fn from_bits(&self, bits: u32) -> f32 {
        f32::from_bits(bits)
    }
    fn to_bits(&self, a: f32) -> u32 {
        a.to_bits()
    }
    fn from_i8(&self, n: i8) -> f32 {
        n as f32
    }
    fn from_usize(&self, n: usize) -> f32 {
        n as f32
    }
    fn from_u32(&self, n: u32) -> f32 {
        n as f32
    }
    fn to_i8(&self, a: f32) -> i8 {
        a as i8
    }
    fn add(&self, a: f32, b: f32) -> f32 {
        a + b
    }
    fn sub(&self, a: f32, b: f32) -> f32 {
        a - b
    }
    fn mul(&self, a: f32, b: f32) -> f32 {
        a * b
    }
    fn div(&self, a: f32, b: f32) -> f32 {
        a / b
    }
    fn mul_add(&self, a: f32, b: f32, c: f32) -> f32 {
        a.mul_add(b, c)
    }
    fn neg(&self, a: f32) -> f32 {
        -a
    }
    fn abs(&self, a: f32) -> f32 {
        a.abs()
    }
    fn sqrt(&self, a: f32) -> f32 {
        a.sqrt()
    }
    fn exp(&self, a: f32) -> f32 {
        a.exp()
    }
    fn sin(&self, a: f32) -> f32 {
        a.sin()
    }
    fn cos(&self, a: f32) -> f32 {
        a.cos()
    }
    fn round(&self, a: f32) -> f32 {
        a.round()
    }
    fn powf(&self, base: f32, exponent: f32) -> f32 {
        base.powf(exponent)
    }
    fn max(&self, a: f32, b: f32) -> f32 {
        a.max(b)
    }
    fn clamp(&self, a: f32, low: f32, high: f32) -> f32 {
        a.clamp(low, high)
    }
    fn lt(&self, a: f32, b: f32) -> bool {
        a < b
    }
    fn le(&self, a: f32, b: f32) -> bool {
        a <= b
    }
    fn eq(&self, a: f32, b: f32) -> bool {
        a == b
    }
}

fn half_bytes(values: &[f32]) -> Vec<u8> {
    values.iter().flat_map(|v| ((v.to_bits() >> 16) as u16).to_le_bytes()).collect()
}

fn file(header: &str, body: &[u8]) -> Vec<u8> {
    let mut bytes = (header.len() as u64).to_le_bytes().to_vec();
    bytes.extend_from_slice(header.as_bytes());
    bytes.extend_from_slice(body);
    bytes
}

fn named(header: &str) -> Result<Vec<(String, TensorInfo)>, String> {
    header_tensors(&file(header, &[]))
}

fn refusal(header: &str) -> String {
    match named(header) {
        Ok(_) => panic!("tensors were named"),
        Err(e) => e,
    }
}

#[test]
fn a_header_names_its_tensors() {
    let infos = named(
        r#"{"b": {"dtype": "BF16", "shape": [2, 32], "data_offsets": [0, 128], "more": null},
            "__metadata__": {"format": "pt"},
            "a": ["F32", [], [128, 132]]}"#,
    )
    .unwrap();
    let seen: Vec<(&str, &str, &[usize], [usize; 2])> = infos
        .iter()
        .map(|(n, i)| (n.as_str(), i.dtype.as_str(), &i.shape[..], i.data_offsets))
        .collect();
    let whole: &[usize] = &[2, 32];
    assert_eq!(seen, vec![("a", "F32", &[][..], [128, 132]), ("b", "BF16", whole, [0, 128])]);
    let order = |text: &str| -> Vec<String> {
        named(text).unwrap().into_iter().map(|(name, _)| name).collect()
    };
    let one = r#"["F32", [], [0, 4]]"#;
    let text = format!(
        "{{\"ab\": {one}, \"é\": {one}, \"B\": {one}, \"a\": {one}, \"z\": {one}, \"\": {one}}}"
    );
    assert_eq!(order(&text), vec!["", "B", "a", "ab", "z", "é"]);
    assert!(named("{}").unwrap().is_empty());
    assert!(named(r#"{"__metadata__": 7}"#).unwrap().is_empty());
}

#[test]
fn a_header_that_names_no_tensors_is_refused() {
    assert_eq!(refusal("[]"), "cannot transfer to HashMap");
    assert_eq!(refusal("{"), "cannot transfer to HashMap");
    assert_eq!(header_tensors(&[1, 0, 0, 0, 0, 0, 0, 0, 0xff]).unwrap_err(), "cannot transfer to HashMap");
    assert_eq!(header_tensors(&[3, 0, 0, 0, 0, 0, 0, 0, b'{', b'}']).unwrap_err(), "cannot read the header");
    for value in [
        "7",
        "{}",
        r#"{"shape": [], "data_offsets": [0, 1]}"#,
        r#"{"dtype": 7, "shape": [], "data_offsets": [0, 1]}"#,
        r#"{"dtype": "F32", "data_offsets": [0, 1]}"#,
        r#"{"dtype": "F32", "shape": [-1], "data_offsets": [0, 1]}"#,
        r#"{"dtype": "F32", "shape": [2.0], "data_offsets": [0, 1]}"#,
        r#"{"dtype": "F32", "shape": [1], "data_offsets": [0, 1, 2]}"#,
        r#"["F32", [], [0, 1], 7]"#,
    ] {
        assert_eq!(refusal(&format!("{{\"a\": {}}}", value)), "cannot cast to struct");
    }
}

#[test]
fn a_file_is_quantized_whole() {
    let matrix: Vec<f32> = (0..64).map(|i| (i % 32) as f32 * 4.0 - 60.0).collect();
    let vector = [1.0f32, -2.5];
    let mut body = half_bytes(&vector);
    body.extend(half_bytes(&matrix));
    let bytes = file(
        r#"{"m": {"dtype": "BF16", "shape": [2, 32], "data_offsets": [4, 132]},
            "v": {"dtype": "BF16", "shape": [2], "data_offsets": [0, 4]}}"#,
        &body,
    );
    let (header_size, _) = read_header(&bytes).unwrap();
    let infos = header_tensors(&bytes).unwrap();
    let plan = plan_layout(&infos).unwrap();
    let bodies = quantize_bodies(&F32, &bytes, header_size, &infos).unwrap();
    assert_eq!(bodies.iter().map(|b| b.len()).collect::<Vec<usize>>(), vec![72, 8]);
    let header = format!(
        "{{\"m\": {{\"dtype\": \"{}\", \"shape\": [2, 32], \"data_offsets\": {:?}}}, \
          \"v\": {{\"dtype\": \"{}\", \"shape\": [2], \"data_offsets\": {:?}}}}}",
        plan[0].1.dtype, plan[0].1.data_offsets, plan[1].1.dtype, plan[1].1.data_offsets
    );
    let out = assemble(header.as_bytes(), &bodies);
    assert_eq!(out.len(), 8 + header.len() + 80);
    let loader = SafttensorsLoader::new(&out).unwrap();
    let m: StoredWeight<f32> = loader.get_weight_matrix(&F32, "m").unwrap();
    match &m.data {
        StoredData::Q8(blocks) => {
            assert_eq!(blocks.len(), 2);
            for (k, block) in blocks.iter().enumerate() {
                let written = quantize_block(&F32, &half_bytes(&matrix[32 * k..32 * k + 32]));
                assert_eq!((block.d, block.qs), (written.d, written.qs));
            }
        }
        _ => panic!("no blocks"),
    }
    let v: StoredWeight<f32> = loader.get_weight_matrix(&F32, "v").unwrap();
    assert!(matches!(&v.data, StoredData::F32(v) if v[..] == vector));
}

#[test]
fn a_tensor_outside_of_the_file_is_not_quantized() {
    let bytes = file("{}", &[0, 0, 0x80, 0x3f]);
    let one = |from: usize, to: usize| {
        let info = TensorInfo { dtype: "BF16".to_string(), shape: vec![1], data_offsets: [from, to] };
        quantize_bodies(&F32, &bytes, 2, &vec![("a".to_string(), info)])
    };
    assert_eq!(one(2, 4), Some(vec![vec![0, 0, 0x80, 0x3f]]));
    assert_eq!(one(2, 5), None);
    assert_eq!(one(3, 2), None);
    assert_eq!(one(0, usize::MAX), None);
}

const PARTS: [&str; 12] = [
    "input_layernorm.weight",
    "self_attn.q_proj.weight",
    "self_attn.q_proj.bias",
    "self_attn.k_proj.weight",
    "self_attn.k_proj.bias",
    "self_attn.v_proj.weight",
    "self_attn.v_proj.bias",
    "self_attn.o_proj.weight",
    "post_attention_layernorm.weight",
    "mlp.gate_proj.weight",
    "mlp.up_proj.weight",
    "mlp.down_proj.weight",
];

/// A file in which weight `i` is the half word `i`, by the order of the names.
fn model_file(layers: usize) -> Vec<u8> {
    let mut names = vec!["model.embed_tokens.weight".to_string(), "model.norm.weight".to_string()];
    for layer in 0..layers {
        for part in PARTS {
            names.push(format!("model.layers.{}.{}", layer, part));
        }
    }
    let entries: Vec<String> = names
        .iter()
        .enumerate()
        .map(|(i, name)| {
            format!(
                "\"{}\": {{\"dtype\": \"BF16\", \"shape\": [1], \"data_offsets\": [{}, {}]}}",
                name,
                2 * i,
                2 * i + 2
            )
        })
        .collect();
    let body: Vec<u8> = (0..names.len()).flat_map(|i| (i as u16).to_le_bytes()).collect();
    file(&format!("{{{}}}", entries.join(", ")), &body)
}

#[test]
fn a_model_is_read_by_its_names() {
    let bytes = model_file(2);
    let loader = SafttensorsLoader::new(&bytes).unwrap();
    let stored = match StoredModel::read(&F32, &loader, 2) {
        Ok(stored) => stored,
        Err(e) => panic!("{}: {}", e.name, e.reason),
    };
    let model = stored.model();
    let word = |w: &WeightData<f32>| match w {
        WeightData::BF16(words) => words[0],
        _ => panic!("no half words"),
    };
    assert_eq!((word(&model.embed_weight.data), word(&model.norm_weight.data)), (0, 1));
    assert_eq!(model.layers.len(), 2);
    for (k, l) in model.layers.iter().enumerate() {
        let parts = [
            &l.input_layernorm,
            &l.q_weight,
            &l.q_bias,
            &l.k_weight,
            &l.k_bias,
            &l.v_weight,
            &l.v_bias,
            &l.o_proj,
            &l.post_attn_layernorm,
            &l.mlp_gate,
            &l.mlp_up,
            &l.mlp_down,
        ];
        for (i, part) in parts.iter().enumerate() {
            assert_eq!(word(&part.data), (2 + 12 * k + i) as u16);
            assert_eq!(part.shape, vec![1]);
        }
    }
}

#[test]
fn a_weight_that_is_missing_is_told() {
    let bytes = model_file(1);
    let loader = SafttensorsLoader::new(&bytes).unwrap();
    match StoredModel::<f32>::read(&F32, &loader, 2) {
        Ok(_) => panic!("a model was read"),
        Err(e) => {
            assert_eq!(e.name, "model.layers.1.input_layernorm.weight");
            assert_eq!(e.reason, "cannot extract token offset");
        }
    }
}
