use pipeline::config::{
    config_path_under, expand_tilde, expand_tilde_with, CatalogConfig, DevelopConfig, DeviceChoice, IngestConfig,
    KeeperStrategy, ModelsConfig, OutputConfig, OutputSubdirs, SidecarJpgMode,
};

#[test]
fn defaults_are_the_documented_ones() {
    let c = CatalogConfig::default();
    assert_eq!((c.write_batch_size, c.enable_vss), (64, false));
    let i = IngestConfig::default();
    assert_eq!(i.extensions, vec!["arw", "cr3", "cr2", "nef", "raf", "rw2", "dng", "jpg", "jpeg"]);
    assert_eq!((i.follow_symlinks, i.threads, i.preview_max_long_edge, i.preview_quality), (false, 0, 2048, 85));
    assert_eq!(i.sidecar_jpg, SidecarJpgMode::Prefer);
    let m = ModelsConfig::default();
    assert_eq!(m.device, DeviceChoice::Auto);
    assert_eq!((m.embedder.as_str(), m.iqa.as_str(), m.detector.as_str()), ("dinov2-base", "clip-iqa", "rt-detr-l"));
    assert_eq!(m.model_dir, "./models");
    let o = OutputConfig::default();
    assert_eq!(o.review_tree, "<library>/_review");
    assert_eq!(o.keeper_strategy, KeeperStrategy::Iqa);
    let d = DevelopConfig::default();
    assert_eq!(d.rawtherapee_path, "");
    assert_eq!(d.output_subdirs, OutputSubdirs::Month);
}

#[test]
fn config_file_lives_under_the_config_dir() {
    assert_eq!(config_path_under(Some("/home/u/.config".into())), "/home/u/.config/photopipe/photopipe.toml");
    assert_eq!(config_path_under(None), "./photopipe/photopipe.toml");
}

#[test]
fn tilde_expands_only_as_a_leading_component() {
    assert_eq!(expand_tilde_with("~/photos", Some("/home/u".into())), "/home/u/photos");
    assert_eq!(expand_tilde_with("~/", Some("/home/u".into())), "/home/u/");
    assert_eq!(expand_tilde_with("~/photos", None), "~/photos");
    assert_eq!(expand_tilde_with("~photos", Some("/home/u".into())), "~photos");
    assert_eq!(expand_tilde_with("/abs/~/x", Some("/home/u".into())), "/abs/~/x");
    assert_eq!(expand_tilde("/no/tilde"), "/no/tilde");
}
