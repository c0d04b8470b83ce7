use kerml_text::corrections::LibraryLoadError;
use kerml_text::source::SourceLanguage;
use kerml_text::systems::{check_slice_paths, check_source_content_set, PinnedSource};

fn message(result: Result<(), LibraryLoadError>) -> String {
    match result {
        Ok(()) => "accepted".to_string(),
        Err(LibraryLoadError::Interpretation(m)) => m,
        Err(LibraryLoadError::Syntax(m)) => format!("syntax {m}"),
    }
}

fn sources() -> Vec<PinnedSource> {
    vec![
        PinnedSource { language: SourceLanguage::KerMl, path: "Kernel/Base.kerml".to_string() },
        PinnedSource { language: SourceLanguage::SysMl, path: "Systems/Parts.sysml".to_string() },
        PinnedSource { language: SourceLanguage::SysMl, path: "Systems/Items.sysml".to_string() },
    ]
}

const SLICE: &str = "Systems slice requires a nonempty set of exact pinned SysML document paths";

#[test]
fn a_slice_names_a_nonempty_set_of_exact_pinned_sysml_paths() {
    let sources = sources();
    assert!(check_slice_paths(&sources, &["Systems/Parts.sysml".to_string()]).is_ok());
    assert!(check_slice_paths(&sources, &["Systems/Items.sysml".to_string(), "Systems/Parts.sysml".to_string()]).is_ok());
    assert_eq!(message(check_slice_paths(&sources, &[])), SLICE);
    assert_eq!(message(check_slice_paths(&sources, &["Kernel/Base.kerml".to_string()])), SLICE);
    assert_eq!(message(check_slice_paths(&sources, &["systems/parts.sysml".to_string()])), SLICE);
    assert_eq!(
        message(check_slice_paths(&sources, &["Systems/Parts.sysml".to_string(), "Systems/Other.sysml".to_string()])),
        SLICE
    );
}

#[test]
fn systems_sources_must_be_the_accepted_kerml_source_set() {
    assert!(check_source_content_set("set-1", "set-1").is_ok());
    assert_eq!(
        message(check_source_content_set("set-1", "set-2")),
        "Systems sources and accepted KerML source set differ"
    );
}
