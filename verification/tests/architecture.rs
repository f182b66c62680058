use bebelm::architecture::{select_profile, supported_list, Architecture, SelectError};
use bebelm::gguf::GgufFile;

fn file_with_arch(arch: Option<&str>) -> GgufFile {
    let mut buf = Vec::new();
    buf.extend_from_slice(b"GGUF");
    buf.extend_from_slice(&3u32.to_le_bytes());
    buf.extend_from_slice(&0u64.to_le_bytes());
    buf.extend_from_slice(&(arch.is_some() as u64).to_le_bytes());
    if let Some(a) = arch {
        let key = "general.architecture";
        buf.extend_from_slice(&(key.len() as u64).to_le_bytes());
        buf.extend_from_slice(key.as_bytes());
        buf.extend_from_slice(&8u32.to_le_bytes());
        buf.extend_from_slice(&(a.len() as u64).to_le_bytes());
        buf.extend_from_slice(a.as_bytes());
    }
    GgufFile::from_bytes(buf).unwrap()
}

#[test]
fn profile_names_are_unique() {
    let mut names: Vec<_> = Architecture::supported().iter().map(|a| a.profile_name()).collect();
    names.sort_unstable();
    names.dedup();
    assert_eq!(names.len(), Architecture::supported().len());
}

#[test]
fn names_of_the_generation_profile() {
    assert_eq!(Architecture::Lfm2Moe.gguf_name(), "lfm2moe");
    assert_eq!(Architecture::Lfm2Moe.profile_name(), "lfm2.5-8b-a1b-cpu");
    assert_eq!(supported_list(), "\"lfm2moe\"");
}

#[test]
fn select_reads_the_registry() {
    assert_eq!(select_profile(&file_with_arch(Some("lfm2moe"))).unwrap(), Architecture::Lfm2Moe);
    assert!(matches!(
        select_profile(&file_with_arch(Some("llama"))),
        Err(SelectError::Unsupported { got }) if got == "llama"
    ));
    assert!(matches!(select_profile(&file_with_arch(None)), Err(SelectError::MissingArchitecture)));
}
