use extsort::error::{validate, Config, SortError};

fn base_config() -> Config {
    Config {
        file: String::from("data.bin"),
        size: None,
        max_mem: 2 * 1073741824,
        int_file_dir: String::from("/int"),
        int_file_size: 2 * 1073741824,
        split_concurrency: 4,
    }
}

#[test]
fn default_shaped_config_is_accepted() {
    assert!(validate(&base_config()).is_ok());
}

#[test]
fn memory_ceiling_below_one_block_is_rejected() {
    let mut cfg = base_config();
    cfg.max_mem = 4095;
    assert!(matches!(validate(&cfg), Err(SortError::InvalidConfiguration)));
    cfg.max_mem = 4096;
    assert!(validate(&cfg).is_ok());
}

#[test]
fn zero_chunk_size_is_rejected() {
    let mut cfg = base_config();
    cfg.int_file_size = 0;
    assert!(matches!(validate(&cfg), Err(SortError::InvalidConfiguration)));
}

#[test]
fn non_positive_concurrency_is_rejected() {
    let mut cfg = base_config();
    cfg.split_concurrency = 0;
    assert!(matches!(validate(&cfg), Err(SortError::InvalidConfiguration)));
    cfg.split_concurrency = -1;
    assert!(matches!(validate(&cfg), Err(SortError::InvalidConfiguration)));
}
