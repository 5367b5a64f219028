use sha2::{Digest, Sha256};
use wiki::sdd_change::{change_id_candidate, change_id_prefix, change_slug};

#[test]
fn change_slug_keeps_ascii_words() {
    assert_eq!(change_slug("Add SDD: verify flow!"), "add-sdd-verify-flow");
    assert_eq!(change_slug("中文标题"), "change");
    assert_eq!(change_slug("--x--Y--"), "x-y");
}

#[test]
fn change_id_prefix_joins_date_slug_and_digest() {
    let digest = format!("{:x}", Sha256::digest("Add login".as_bytes()));
    assert_eq!(change_id_prefix("Add login", "2024-05-01"), format!("20240501-add-login-{}", &digest[..8]));
    assert_eq!(change_id_candidate("20240501-x-abcdef12", 2), "20240501-x-abcdef12-2");
}
