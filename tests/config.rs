use deep_archive::config::{get_model_paths, parse_env, render_env, ConfigError};

#[test]
fn test_save_and_load_env() {
    let content = render_env("/tmp/nsfw.onnx", "/tmp/tagger.onnx");
    assert!(content.contains("NSFW_MODEL_PATH=/tmp/nsfw.onnx"));
    assert!(content.contains("TAGGER_MODEL_PATH=/tmp/tagger.onnx"));
    let loaded = parse_env(&content).expect("both paths present");
    assert_eq!(loaded.nsfw, "/tmp/nsfw.onnx");
    assert_eq!(loaded.tagger, "/tmp/tagger.onnx");
}

#[test]
fn render_env_exact_text() {
    assert_eq!(render_env("a", "b"), "NSFW_MODEL_PATH=a\nTAGGER_MODEL_PATH=b\n");
}

#[test]
fn parse_env_trims_and_last_wins() {
    let text = "# models\r\n NSFW_MODEL_PATH = /old \nTAGGER_MODEL_PATH=/t=x\r\nNSFW_MODEL_PATH=/new\nnoise";
    let p = parse_env(text).unwrap();
    assert_eq!(p.nsfw, "/new");
    assert_eq!(p.tagger, "/t=x");
}

#[test]
fn parse_env_incomplete() {
    assert!(parse_env("NSFW_MODEL_PATH=/a\n").is_none());
    assert!(parse_env("").is_none());
    assert!(parse_env("TAGGER_MODEL_PATH /b\nNSFW_MODEL_PATH=/a").is_none());
}

#[test]
fn model_paths_prefer_settings() {
    let text = "NSFW_MODEL_PATH=/e/n\nTAGGER_MODEL_PATH=/e/t\n";
    let p = get_model_paths(Some(text), Some("/s/n".to_string()), Some("/s/t".to_string())).ok().unwrap();
    assert_eq!(p.nsfw, "/e/n");
    assert_eq!(p.tagger, "/e/t");
}

#[test]
fn model_paths_fall_back_to_search() {
    let p = get_model_paths(Some("NSFW_MODEL_PATH=/e/n"), Some("/s/n".to_string()), Some("/s/t".to_string()))
        .ok()
        .unwrap();
    assert_eq!(p.nsfw, "/s/n");
    assert_eq!(p.tagger, "/s/t");
}

#[test]
fn model_paths_missing_models() {
    assert_eq!(get_model_paths(None, None, Some("/t".to_string())).err(), Some(ConfigError::NsfwModelNotFound));
    assert_eq!(get_model_paths(None, Some("/n".to_string()), None).err(), Some(ConfigError::TaggerModelNotFound));
}
