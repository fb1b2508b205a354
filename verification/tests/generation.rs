use std::time::Duration;

use llm_lzh::bench::{FnIndex, GlobalMonitor};
use llm_lzh::json::raw_to_json;
use llm_lzh::session::{layer_weight, Config, Session};

fn config(text: &str) -> Result<Config, String> {
    Config::from_json(&raw_to_json(text.as_bytes()).unwrap())
}

const FULL: &str = r#"{"num_hidden_layers": 24, "hidden_size": 896.9, "num_attention_heads": 14,
    "num_key_value_heads": 2, "intermediate_size": 4864, "vocab_size": 151936}"#;

#[test]
fn a_configuration_is_read() {
    let c = config(FULL).unwrap();
    assert_eq!(
        c,
        Config {
            layer_count: 24,
            hidden_dim: 896,
            num_attention_heads: 14,
            num_key_value_heads: 2,
            intermediate_size: 4864,
            vocab_size: 151936,
        }
    );
    assert_eq!(c.kv_group(), 7);
    assert_eq!(c.head_dim(), 64);
    assert!(c.fits());
    assert!(!Config { num_attention_heads: 15, ..c }.fits());
    assert!(!Config { num_key_value_heads: 0, ..c }.fits());
    assert!(!Config { num_key_value_heads: 28, ..c }.fits());
    assert!(!Config { num_key_value_heads: 4, ..c }.fits());
}

#[test]
fn each_missing_number_has_its_message() {
    let without = |name: &str| config(&FULL.replace(name, "x")).unwrap_err();
    assert_eq!(without("num_hidden_layers"), "cannot get layer num");
    assert_eq!(without("hidden_size"), "cannot get hidden_size");
    assert_eq!(without("num_attention_heads"), "cannot convert num to u64");
    assert_eq!(without("num_key_value_heads"), "cannot convert num to u64");
    assert_eq!(without("intermediate_size"), "cannot convert num to u64");
    assert_eq!(without("vocab_size"), "cannot get vocab");
    assert_eq!(config(&FULL.replace("14", "1.5")).unwrap_err(), "cannot convert num to u64");
}

#[test]
fn weights_are_named_by_their_layer() {
    assert_eq!(layer_weight(0, "mlp.up_proj.weight"), "model.layers.0.mlp.up_proj.weight");
    assert_eq!(layer_weight(10, "x"), "model.layers.10.x");
    assert_eq!(layer_weight(12345, "x"), "model.layers.12345.x");
}

#[test]
fn a_session_goes_on_token_by_token() {
    let mut s = Session::new(&vec![5, 6, 7]);
    assert_eq!((s.current_pos, s.valid_kv_len(), s.attn_start_pos()), (0, 3, 2));
    assert!(!s.advance(8));
    assert_eq!(s.whole_token_list, vec![5, 6, 7, 8]);
    assert_eq!(s.current_token, vec![8]);
    assert_eq!((s.current_pos, s.valid_kv_len(), s.attn_start_pos()), (3, 4, 3));
    assert!(!s.is_full());
    assert!(s.advance(151643));
    assert!(s.advance(151645));
    assert!(!s.advance(151644));
    assert_eq!(s.current_pos, 6);
    for _ in 6..2048 {
        assert!(!s.is_full());
        s.advance(1);
    }
    assert!(s.is_full());
}

#[test]
fn times_are_added_to_their_step() {
    let mut m = GlobalMonitor::new();
    assert!(m.accum_times.iter().all(|t| *t == Duration::ZERO));
    assert!(m.record(FnIndex::Softmax, Duration::from_nanos(5)));
    assert!(m.record(FnIndex::Softmax, Duration::from_nanos(7)));
    assert!(m.record(FnIndex::rope, Duration::from_secs(1)));
    assert_eq!(m.accum_times[4], Duration::from_nanos(12));
    assert_eq!(m.accum_times[8], Duration::from_secs(1));
    assert!(!m.record(FnIndex::rope, Duration::MAX));
    assert_eq!(m.accum_times[8], Duration::from_secs(1));
    m.enter();
    assert!(m.exit(FnIndex::LmHead));
    assert!(m.accum_times[0] == Duration::ZERO);
    m.reset();
    assert!(m.accum_times.iter().all(|t| *t == Duration::ZERO));
}

#[test]
fn the_report_has_a_line_for_each_step() {
    let mut m = GlobalMonitor::new();
    m.record(FnIndex::TokenizerDecode, Duration::from_nanos(9));
    m.record(FnIndex::rope, Duration::from_nanos(8));
    let lines = m.report();
    assert_eq!(lines.len(), 10);
    assert_eq!(lines[0], ("Token Embedding : ".to_string(), Duration::ZERO));
    assert_eq!(lines[3], ("RoPE            : ".to_string(), Duration::from_nanos(8)));
    assert_eq!(lines[9], ("Token Decode    : ".to_string(), Duration::from_nanos(9)));
}

#[test]
fn each_step_has_its_place() {
    assert_eq!(FnIndex::TokenEmbedding.slot(), 0);
    assert_eq!(FnIndex::RmsNormInput.slot(), 1);
    assert_eq!(FnIndex::QkvProj.slot(), 2);
    assert_eq!(FnIndex::AttentionScore.slot(), 3);
    assert_eq!(FnIndex::Softmax.slot(), 4);
    assert_eq!(FnIndex::OutProj.slot(), 5);
    assert_eq!(FnIndex::MlpBlock.slot(), 6);
    assert_eq!(FnIndex::LmHead.slot(), 7);
    assert_eq!(FnIndex::rope.slot(), 8);
    assert_eq!(FnIndex::TokenizerDecode.slot(), 9);
    assert_eq!(FnIndex::rope as usize, 8);
    for step in [
        FnIndex::TokenEmbedding,
        FnIndex::RmsNormInput,
        FnIndex::QkvProj,
        FnIndex::AttentionScore,
        FnIndex::Softmax,
        FnIndex::OutProj,
        FnIndex::MlpBlock,
        FnIndex::LmHead,
        FnIndex::rope,
        FnIndex::TokenizerDecode,
    ] {
        assert_eq!(step.slot(), step as usize);
    }
}
