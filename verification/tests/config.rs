use classic_ciphers::pki::PKIConfig;

#[test]
fn default_configuration() {
    let c = PKIConfig::new();
    assert_eq!(c.ca_key_bits, 4096);
    assert_eq!(c.user_key_bits, 2048);
    assert_eq!(c.ca_validity_days, 3650);
    assert_eq!(c.user_validity_days, 365);
    assert_eq!(c.ca_dir, "./pki/ca");
    assert_eq!(c.users_dir, "./pki/users");
}
