use llm_lzh::json::raw_to_json;

#[test]
fn test_raw_to_json() {
    let raw_data = b"{\"layer_count\": 24, \"model_type\": \"qwen\"}";

    let json_val = raw_to_json(raw_data).expect("JSON 内存反序列化崩溃");

    assert_eq!(json_val["layer_count"].as_i64(), Some(24));
    assert_eq!(json_val["model_type"].as_str(), Some("qwen"));
}
