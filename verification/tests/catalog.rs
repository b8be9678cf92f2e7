use turing_smart_screen::catalog::{
    compatible_themes, model_size_for, revision_for, revision_str, size_for_model, size_matches,
    com_port_label, hot_panel_warning, sizes_for_model, sync_revision_theme, theme_size_of, ThemeSync, MODEL_KIPYE, MODEL_SIMU, MODEL_TURING, MODEL_USBPC, MODEL_WEACT,
    MODEL_XUANFANG, SIZE_096, SIZE_21_28, SIZE_28_ROUND, SIZE_35, SIZE_46, SIZE_5, SIZE_88,
    SIZE_88_92_NEW,
};
use turing_smart_screen::config::Revision;

#[test]
fn sizes_per_model() {
    assert_eq!(sizes_for_model(MODEL_TURING).len(), 10);
    assert_eq!(sizes_for_model(MODEL_TURING)[0], SIZE_21_28);
    assert_eq!(sizes_for_model(MODEL_USBPC), vec![SIZE_35, SIZE_5]);
    assert_eq!(sizes_for_model(MODEL_KIPYE), vec![SIZE_35]);
    assert_eq!(sizes_for_model(MODEL_WEACT), vec![SIZE_096, SIZE_35]);
    assert_eq!(sizes_for_model("something else"), vec![SIZE_35, SIZE_5]);
}

#[test]
fn revision_selection() {
    assert_eq!(revision_for(MODEL_TURING, SIZE_35), Some(Revision::A));
    assert_eq!(revision_for(MODEL_TURING, SIZE_5), Some(Revision::C));
    assert_eq!(revision_for(MODEL_TURING, SIZE_46), Some(Revision::TurUsb));
    assert_eq!(revision_for(MODEL_USBPC, SIZE_5), Some(Revision::A));
    assert_eq!(revision_for(MODEL_XUANFANG, SIZE_35), Some(Revision::B));
    assert_eq!(revision_for(MODEL_KIPYE, SIZE_35), Some(Revision::D));
    assert_eq!(revision_for(MODEL_WEACT, SIZE_096), Some(Revision::WeActB));
    assert_eq!(revision_for(MODEL_WEACT, SIZE_35), Some(Revision::WeActA));
    assert_eq!(revision_for(MODEL_SIMU, "anything"), Some(Revision::Simu));
    assert_eq!(revision_for(MODEL_XUANFANG, SIZE_5), None);
}

#[test]
fn shown_model_and_size() {
    assert_eq!(model_size_for(Revision::A, Some("5\"")), (MODEL_USBPC, SIZE_5));
    assert_eq!(model_size_for(Revision::A, None), (MODEL_TURING, SIZE_35));
    assert_eq!(model_size_for(Revision::C, Some("2.8\"")), (MODEL_TURING, SIZE_21_28));
    assert_eq!(model_size_for(Revision::TurUsb, Some("9.2\"")), (MODEL_TURING, SIZE_88_92_NEW));
    assert_eq!(model_size_for(Revision::TurUsb, Some("2.1\"")), (MODEL_TURING, SIZE_28_ROUND));
    assert_eq!(model_size_for(Revision::D, None), (MODEL_KIPYE, SIZE_35));
    // Shown pair selects the configured revision back.
    let (m, s) = model_size_for(Revision::TurUsb, Some("4.6\""));
    assert_eq!(revision_for(m, s), Some(Revision::TurUsb));
}

#[test]
fn size_options_match_theme_sizes() {
    assert!(size_matches(SIZE_21_28, "2.8\""));
    assert!(size_matches(SIZE_88, "9.2\""));
    assert!(size_matches(SIZE_35, "3.5\""));
    assert!(!size_matches(SIZE_35, "5\""));
    assert_eq!(revision_str(Revision::TurUsb), "TUR_USB");
    assert_eq!(revision_str(Revision::WeActB), "WEACT_B");
}

#[test]
fn theme_lists() {
    let themes = vec![
        ("A".to_string(), "3.5\"".to_string()),
        ("B".to_string(), "2.1\"".to_string()),
        ("C".to_string(), "3.5\"".to_string()),
    ];
    assert_eq!(compatible_themes(&themes, SIZE_35), vec!["A".to_string(), "C".to_string()]);
    assert_eq!(compatible_themes(&themes, SIZE_21_28), vec!["B".to_string()]);
    assert_eq!(theme_size_of(&themes, "B"), "2.1\"");
    assert_eq!(theme_size_of(&themes, "Z"), "?");
    assert_eq!(size_for_model(MODEL_WEACT, SIZE_35), SIZE_35);
    assert_eq!(size_for_model(MODEL_KIPYE, SIZE_5), SIZE_35);
}

#[test]
fn model_or_size_change() {
    let themes = vec![
        ("Small".to_string(), "2.1\"".to_string()),
        ("Mid".to_string(), "3.5\"".to_string()),
        ("Mid2".to_string(), "3.5\"".to_string()),
    ];
    assert!(matches!(sync_revision_theme(MODEL_TURING, SIZE_35, &themes, "Mid2"), ThemeSync::Keep(Revision::A)));
    match sync_revision_theme(MODEL_TURING, SIZE_35, &themes, "Small") {
        ThemeSync::Reset(Revision::A, name) => assert_eq!(name, "Mid"),
        _ => panic!("expected a reset"),
    }
    assert!(matches!(sync_revision_theme(MODEL_TURING, SIZE_46, &themes, "Mid"), ThemeSync::NoThemes(Revision::TurUsb)));
    assert!(matches!(sync_revision_theme(MODEL_XUANFANG, SIZE_5, &themes, "Mid"), ThemeSync::InvalidCombination));
}

#[test]
fn window_labels_and_warnings() {
    assert!(hot_panel_warning(51, MODEL_TURING, SIZE_35));
    assert!(!hot_panel_warning(50, MODEL_TURING, SIZE_35));
    assert!(!hot_panel_warning(90, MODEL_USBPC, SIZE_35));
    assert!(!hot_panel_warning(90, MODEL_TURING, SIZE_5));
    assert_eq!(com_port_label("AUTO"), "Automatic detection");
    assert_eq!(com_port_label("COM4"), "COM4");
}
