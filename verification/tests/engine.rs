#[test]
fn test_load_module_from_file() {}
