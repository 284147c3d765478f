use i18n_audit::config::default_true;

#[test]
fn default_true_is_true() {
    assert!(default_true());
}
