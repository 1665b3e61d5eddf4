use key_backups::features::{features, init_features, ManifestError};

fn manifest(body: &str) -> String {
    let mut s = String::from("[package]\nname = \"demo\"\nversion = \"0.1.0\"\n");
    s.push_str(body);
    s
}

#[test]
fn features_lists_every_declared_feature_once() {
    let manifests = vec![
        manifest("[features]\ndefault = [\"alpha\"]\nalpha = []\nzeta = []\n"),
        manifest("[features]\nalpha = []\nbeta = []\n"),
    ];
    let got = features(&manifests).unwrap();
    assert_eq!(got, vec!["alpha", "beta", "default", "zeta"]);
}

#[test]
fn features_of_manifest_without_feature_table_is_empty() {
    let manifests = vec![manifest("")];
    assert_eq!(features(&manifests).unwrap().len(), 0);
}

#[test]
fn features_rejects_malformed_manifest_text() {
    let manifests = vec![manifest(""), "not a manifest at all [".to_string()];
    assert_eq!(features(&manifests).unwrap_err(), ManifestError::Parse);
}

#[test]
fn init_features_reads_the_manifest_not_the_argument_shape() {
    // The output comes from parsing the TOML: a feature named in the text
    // appears, the surrounding text does not.
    let manifests = vec![manifest("[features]\nonly-one = []\n")];
    let got = init_features(&manifests).unwrap();
    assert_eq!(got, vec!["only-one"]);
}
