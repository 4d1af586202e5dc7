use sdivi::adapter::{LanguageAdapter, PythonAdapter, RustAdapter, TypeScriptAdapter};

#[test]
fn rust_adapter_names_and_extensions() {
    let adapter = RustAdapter;
    assert_eq!(adapter.language_name(), "rust");
    assert_eq!(adapter.file_extensions(), &[".rs"]);
}

#[test]
fn python_adapter_names_and_extensions() {
    let adapter = PythonAdapter;
    assert_eq!(adapter.language_name(), "python");
    assert!(adapter.file_extensions().contains(&".py"));
    assert_eq!(adapter.file_extensions().len(), 1);
}

#[test]
fn typescript_adapter_names_and_extensions() {
    let adapter = TypeScriptAdapter;
    assert_eq!(adapter.language_name(), "typescript");
    assert!(adapter.file_extensions().contains(&".ts"));
    assert!(adapter.file_extensions().contains(&".tsx"));
}

#[test]
fn adapters_work_as_trait_objects() {
    let adapters: Vec<Box<dyn LanguageAdapter>> = vec![Box::new(RustAdapter), Box::new(PythonAdapter)];
    let names: Vec<&str> = adapters.iter().map(|a| a.language_name()).collect();
    assert_eq!(names, vec!["rust", "python"]);
}
