use tectonic_cxx::artifacts::{extract_artifact, ArtifactSet};
use tectonic_cxx::session::{extract_output, resource_policy, session_config, OutputFormat};

fn files_with(entries: &[(&str, &[u8])]) -> ArtifactSet {
    let mut files = ArtifactSet::new();
    for (name, data) in entries {
        files.insert(name.to_string(), data.to_vec());
    }
    files
}

#[test]
fn session_config_for_hello() {
    let config = session_config("Hello");
    assert_eq!(config.primary_input, b"Hello".to_vec());
    assert_eq!(config.tex_input_name, "texput.tex");
    assert_eq!(config.format_name, "latex");
    assert_eq!(config.output_format, OutputFormat::Pdf);
    assert!(!config.keep_logs);
    assert!(!config.keep_intermediates);
    assert!(!config.print_stdout);
    assert!(!config.write_output_files);
}

#[test]
fn session_config_keeps_markup_bytes() {
    let config = session_config("caf\u{e9} \\LaTeX\n");
    assert_eq!(config.primary_input, "caf\u{e9} \\LaTeX\n".as_bytes().to_vec());
    assert_eq!(session_config("").primary_input, Vec::<u8>::new());
}

#[test]
fn extract_output_gives_the_rendered_document() {
    let files = files_with(&[("texput.log", b"log"), ("texput.pdf", b"%PDF-1.5"), ("texput.aux", b"")]);
    assert_eq!(extract_output(files), b"%PDF-1.5".to_vec());
}

#[test]
fn extract_output_without_document_is_empty() {
    assert_eq!(extract_output(files_with(&[("texput.log", b"log")])), Vec::<u8>::new());
    assert_eq!(extract_output(ArtifactSet::new()), Vec::<u8>::new());
}

#[test]
fn extract_missing_name_is_always_empty() {
    assert_eq!(extract_artifact(files_with(&[("a", b"1"), ("b", b"2")]), "c"), Vec::<u8>::new());
    assert_eq!(extract_artifact(files_with(&[("a", b"1"), ("b", b"2")]), ""), Vec::<u8>::new());
    assert_eq!(extract_artifact(files_with(&[("a", b"1"), ("b", b"2")]), "A"), Vec::<u8>::new());
}

#[test]
fn extract_artifact_by_name() {
    assert_eq!(extract_artifact(files_with(&[("a", b"1"), ("b", b"2")]), "a"), b"1".to_vec());
    assert_eq!(extract_artifact(files_with(&[("a", b"1"), ("b", b"2")]), "b"), b"2".to_vec());
}

#[test]
fn insert_replaces_file_of_same_name() {
    let mut files = files_with(&[("a", b"old"), ("b", b"2")]);
    files.insert("a".to_string(), b"new".to_vec());
    assert!(files.contains("a"));
    assert_eq!(files.remove("a"), Some(b"new".to_vec()));
    assert_eq!(files.remove("a"), None);
    assert_eq!(files.remove("b"), Some(b"2".to_vec()));
}

#[test]
fn remove_takes_one_file_and_leaves_the_others() {
    let mut files = files_with(&[("a", b"1"), ("b", b"2"), ("c", b"3")]);
    assert_eq!(files.remove("b"), Some(b"2".to_vec()));
    assert!(!files.contains("b"));
    assert!(files.contains("a"));
    assert!(files.contains("c"));
    assert_eq!(files.remove("b"), None);
    assert_eq!(files.remove("c"), Some(b"3".to_vec()));
    assert_eq!(files.remove("a"), Some(b"1".to_vec()));
    assert!(!files.contains("a"));
}

#[test]
fn empty_file_differs_from_no_file_in_the_set() {
    let mut files = files_with(&[("texput.pdf", b"")]);
    assert!(files.contains("texput.pdf"));
    assert_eq!(files.remove("texput.pdf"), Some(Vec::new()));
    assert!(!files.contains("texput.pdf"));
}

#[test]
fn policy_creates_no_configuration_and_allows_fetching() {
    let policy = resource_policy();
    assert!(!policy.auto_create_config_file);
    assert!(!policy.only_cached);
}
