use input_synth::config::{join_errors, ConfigError};
use input_synth::documents::{check_load_request, sniff_kind, split_load_arg, DocumentKind, DocumentSource, LoadRejection};

#[test]
fn load_args_with_a_known_kind_split_at_the_last_colon() {
    assert_eq!(split_load_arg("cfg.yaml:experiment_config"), ("cfg.yaml", Some("experiment_config")));
    assert_eq!(split_load_arg("packs/a.yaml:macro_pack"), ("packs/a.yaml", Some("macro_pack")));
    assert_eq!(split_load_arg("c:/x.yaml:macro_pack"), ("c:/x.yaml", Some("macro_pack")));
    assert_eq!(split_load_arg(":macro_pack"), ("", Some("macro_pack")));
}

#[test]
fn other_load_args_are_plain_paths() {
    assert_eq!(split_load_arg("cfg.yaml"), ("cfg.yaml", None));
    assert_eq!(split_load_arg("cfg.yaml:event_grammar"), ("cfg.yaml:event_grammar", None));
    assert_eq!(split_load_arg("a:macro_pack:x"), ("a:macro_pack:x", None));
    assert_eq!(split_load_arg("cfg.yaml:"), ("cfg.yaml:", None));
    assert_eq!(split_load_arg(""), ("", None));
}

#[test]
fn config_errors_join_one_per_line() {
    let errs = vec![
        ConfigError::Invalid("version must be 1".to_owned()),
        ConfigError::Parse { message: "bad yaml".to_owned(), line: Some(2), column: Some(3) },
    ];
    assert_eq!(join_errors(&errs), "version must be 1\nparse error: bad yaml");
    assert_eq!(join_errors(&errs[..1]), "version must be 1");
    assert_eq!(join_errors(&[]), "");
}

#[test]
fn load_requests_take_inline_experiment_configs_only() {
    assert_eq!(check_load_request(DocumentKind::ExperimentConfig, DocumentSource::DocumentYaml), Ok(()));
    assert_eq!(
        check_load_request(DocumentKind::ExperimentConfig, DocumentSource::ArtifactRef),
        Err(LoadRejection::ArtifactRefUnsupported)
    );
    assert_eq!(
        check_load_request(DocumentKind::ExperimentConfig, DocumentSource::Missing),
        Err(LoadRejection::ArtifactRefUnsupported)
    );
    let grammar = check_load_request(DocumentKind::EventGrammar, DocumentSource::DocumentYaml).unwrap_err();
    assert_eq!(grammar.message(), "event_grammar documents are not supported until M5");
    let pack = check_load_request(DocumentKind::MacroPack, DocumentSource::ArtifactRef).unwrap_err();
    assert_eq!(pack.message(), "macro packs land with M2");
    assert_eq!(
        check_load_request(DocumentKind::Unspecified, DocumentSource::Missing),
        Err(LoadRejection::KindUnspecified)
    );
    assert_eq!(
        LoadRejection::ArtifactRefUnsupported.message(),
        "artifact_ref sources are not supported in standalone mode; send document_yaml"
    );
}

#[test]
fn loaded_documents_name_their_own_kind() {
    assert_eq!(sniff_kind(b"kind: macro_pack\nversion: 1\n"), "macro_pack");
    assert_eq!(sniff_kind(b"version: 1\nkind: experiment_config\n"), "experiment_config");
}

#[test]
fn documents_without_a_string_kind_sniff_empty() {
    assert_eq!(sniff_kind(b"version: 1\n"), "");
    assert_eq!(sniff_kind(b"kind: 3\n"), "");
    assert_eq!(sniff_kind(b"- kind\n- macro_pack\n"), "");
    assert_eq!(sniff_kind(b"{ not yaml"), "");
    assert_eq!(sniff_kind(b""), "");
}
