use ingress_annotator::reconcile::{
    error_policy, plan_fetch, reconcile, FetchPlan, IngressView, ReconcileAction, ReconcileError,
};
use ingress_annotator::journal::{decode_journal, encode_journal};
use ingress_annotator::secret::SecretView;
use ingress_annotator::strmap::StrMap;
use ingress_annotator::template::replace_all;

const TRIGGER: &str = "kirillorlov.pro/annotationsFromSecretName";
const STATE: &str = "kirillorlov.pro/annotationsFromSecretState";
const LAST_APPLIED: &str = "kubectl.kubernetes.io/last-applied-configuration";

fn smap(pairs: &[(&str, &str)]) -> StrMap {
    let mut m = StrMap::new();
    for (k, v) in pairs {
        m.insert(String::from(*k), String::from(*v));
    }
    m
}

fn secret_of(data: &[(&str, &[u8])], sdata: &[(&str, &str)]) -> SecretView {
    let d: Vec<(String, Vec<u8>)> =
        data.iter().map(|(k, v)| (String::from(*k), v.to_vec())).collect();
    let s: Vec<(String, String)> =
        sdata.iter().map(|(k, v)| (String::from(*k), String::from(*v))).collect();
    SecretView::new(d, s).expect("secret pairs must be sorted")
}

fn ingress_of(namespace: Option<&str>, ann: StrMap) -> IngressView {
    IngressView {
        namespace: namespace.map(String::from),
        name: Some(String::from("demo")),
        annotations: Some(ann),
    }
}

fn apply_patch(ann: &StrMap, patch: &StrMap) -> StrMap {
    let mut merged = ann.duplicate();
    let mut i = 0;
    while i < patch.len() {
        merged.insert(patch.key_at(i).clone(), patch.val_at(i).clone());
        i += 1;
    }
    merged
}

#[test]
fn basic_substitution() {
    let ann = smap(&[(TRIGGER, "mysecret"), ("example", "prefix-$FOO$-suffix")]);
    let secret = secret_of(&[], &[("FOO", "bar")]);
    let ing = ingress_of(Some("ns"), ann);
    match reconcile(&ing, Some(&secret)) {
        ReconcileAction::SubmitPatch { annotations, requeue_secs } => {
            assert_eq!(requeue_secs, 300);
            assert_eq!(annotations.get("example").unwrap().as_str(), "prefix-bar-suffix");
            let state = annotations.get(STATE).unwrap();
            assert_eq!(state.as_str(), "{\"example\":\"prefix-$FOO$-suffix\"}");
        }
        _ => panic!("expected a patch"),
    }
}

#[test]
fn idempotence_second_run_stages_nothing() {
    let ann = smap(&[(TRIGGER, "mysecret"), ("example", "prefix-$FOO$-suffix")]);
    let secret = secret_of(&[], &[("FOO", "bar")]);
    let ing = ingress_of(Some("ns"), ann.duplicate());
    let patch = match reconcile(&ing, Some(&secret)) {
        ReconcileAction::SubmitPatch { annotations, .. } => annotations,
        _ => panic!("expected a patch"),
    };
    let ann2 = apply_patch(&ann, &patch);
    let ing2 = ingress_of(Some("ns"), ann2);
    match reconcile(&ing2, Some(&secret)) {
        ReconcileAction::UpToDate { requeue_secs } => assert_eq!(requeue_secs, 300),
        _ => panic!("second run must stage nothing"),
    }
}

#[test]
fn rotation_reuses_journaled_original() {
    let ann = smap(&[(TRIGGER, "mysecret"), ("example", "prefix-$FOO$-suffix")]);
    let secret = secret_of(&[], &[("FOO", "bar")]);
    let ing = ingress_of(Some("ns"), ann.duplicate());
    let patch = match reconcile(&ing, Some(&secret)) {
        ReconcileAction::SubmitPatch { annotations, .. } => annotations,
        _ => panic!("expected a patch"),
    };
    let ann2 = apply_patch(&ann, &patch);
    let rotated = secret_of(&[], &[("FOO", "baz")]);
    let ing2 = ingress_of(Some("ns"), ann2.duplicate());
    match reconcile(&ing2, Some(&rotated)) {
        ReconcileAction::SubmitPatch { annotations, .. } => {
            assert_eq!(annotations.get("example").unwrap().as_str(), "prefix-baz-suffix");
            // The journaled original is unchanged by the rotation.
            assert_eq!(
                annotations.get(STATE).unwrap().as_str(),
                "{\"example\":\"prefix-$FOO$-suffix\"}"
            );
        }
        _ => panic!("rotation must restage from the journaled original"),
    }
}

#[test]
fn no_placeholder_never_touched() {
    let ann = smap(&[(TRIGGER, "mysecret"), ("note", "hello world")]);
    let secret = secret_of(&[], &[("FOO", "bar")]);
    let ing = ingress_of(Some("ns"), ann);
    match reconcile(&ing, Some(&secret)) {
        ReconcileAction::UpToDate { requeue_secs } => assert_eq!(requeue_secs, 300),
        _ => panic!("an annotation without placeholders must stage nothing"),
    }
}

#[test]
fn reserved_keys_excluded() {
    // Tokens inside the reserved keys' values are never substitution targets.
    let ann = smap(&[(TRIGGER, "$FOO$"), (LAST_APPLIED, "$FOO$"), ("real", "$FOO$")]);
    let secret = secret_of(&[], &[("FOO", "bar")]);
    let ing = ingress_of(Some("ns"), ann);
    match reconcile(&ing, Some(&secret)) {
        ReconcileAction::SubmitPatch { annotations, .. } => {
            assert_eq!(annotations.get("real").unwrap().as_str(), "bar");
            assert!(annotations.get(TRIGGER).is_none());
            assert!(annotations.get(LAST_APPLIED).is_none());
        }
        _ => panic!("expected a patch for the non-reserved key"),
    }
}

#[test]
fn multiple_placeholders_one_pass() {
    let ann = smap(&[(TRIGGER, "mysecret"), ("combo", "$A$-$B$")]);
    let secret = secret_of(&[], &[("A", "1"), ("B", "2")]);
    let ing = ingress_of(Some("ns"), ann);
    match reconcile(&ing, Some(&secret)) {
        ReconcileAction::SubmitPatch { annotations, .. } => {
            assert_eq!(annotations.get("combo").unwrap().as_str(), "1-2");
            assert_eq!(
                annotations.get(STATE).unwrap().as_str(),
                "{\"combo\":\"$A$-$B$\"}"
            );
        }
        _ => panic!("expected a patch"),
    }
}

#[test]
fn missing_secret_fails_with_short_retry() {
    let ann = smap(&[(TRIGGER, "mysecret"), ("example", "$FOO$")]);
    let ing = ingress_of(Some("ns"), ann);
    match reconcile(&ing, None) {
        ReconcileAction::Fail { error, requeue_secs } => {
            assert!(matches!(error, ReconcileError::SecretFetch));
            assert_eq!(requeue_secs, 60);
        }
        _ => panic!("a failed fetch must report failure"),
    }
}

#[test]
fn trigger_removed_is_noop() {
    // A stale state annotation without the trigger is left untouched.
    let ann = smap(&[(STATE, "{\"example\":\"$FOO$\"}"), ("example", "bar")]);
    let secret = secret_of(&[], &[("FOO", "bar")]);
    let ing = ingress_of(Some("ns"), ann);
    assert!(matches!(reconcile(&ing, Some(&secret)), ReconcileAction::NoOp));
    assert!(matches!(plan_fetch(&ing), FetchPlan::NoTrigger));
}

#[test]
fn no_annotations_is_noop() {
    let ing = IngressView {
        namespace: Some(String::from("ns")),
        name: Some(String::from("demo")),
        annotations: None,
    };
    assert!(matches!(reconcile(&ing, None), ReconcileAction::NoOp));
    assert!(matches!(plan_fetch(&ing), FetchPlan::NoTrigger));
}

#[test]
fn missing_namespace_is_reported() {
    let ann = smap(&[(TRIGGER, "mysecret")]);
    let ing = ingress_of(None, ann);
    assert!(matches!(plan_fetch(&ing), FetchPlan::MissingNamespace));
}

#[test]
fn plan_fetch_names_secret_and_namespace() {
    let ann = smap(&[(TRIGGER, "mysecret")]);
    let ing = ingress_of(Some("prod"), ann);
    match plan_fetch(&ing) {
        FetchPlan::Fetch { namespace, name } => {
            assert_eq!(namespace.as_str(), "prod");
            assert_eq!(name.as_str(), "mysecret");
        }
        _ => panic!("expected a fetch plan"),
    }
}

#[test]
fn data_bytes_decoded_as_text() {
    let ann = smap(&[(TRIGGER, "mysecret"), ("example", "$BIN$")]);
    let secret = secret_of(&[("BIN", b"xyz")], &[]);
    let ing = ingress_of(Some("ns"), ann);
    match reconcile(&ing, Some(&secret)) {
        ReconcileAction::SubmitPatch { annotations, .. } => {
            assert_eq!(annotations.get("example").unwrap().as_str(), "xyz");
        }
        _ => panic!("expected a patch"),
    }
}

#[test]
fn invalid_utf8_data_aborts_reconcile() {
    let ann = smap(&[(TRIGGER, "mysecret"), ("example", "$BIN$")]);
    let secret = secret_of(&[("BIN", &[0xff, 0xfe])], &[]);
    let ing = ingress_of(Some("ns"), ann);
    match reconcile(&ing, Some(&secret)) {
        ReconcileAction::Fail { error, requeue_secs } => {
            assert!(matches!(error, ReconcileError::SecretValueNotUtf8));
            assert_eq!(requeue_secs, 60);
        }
        _ => panic!("undecodable data must abort the reconcile"),
    }
}

#[test]
fn string_data_wins_over_data() {
    let ann = smap(&[(TRIGGER, "mysecret"), ("example", "$K$")]);
    let secret = secret_of(&[("K", b"from-data")], &[("K", "from-string")]);
    let ing = ingress_of(Some("ns"), ann);
    match reconcile(&ing, Some(&secret)) {
        ReconcileAction::SubmitPatch { annotations, .. } => {
            assert_eq!(annotations.get("example").unwrap().as_str(), "from-string");
        }
        _ => panic!("expected a patch"),
    }
}

#[test]
fn journal_round_trip() {
    let journal = smap(&[("a", "x$Y$z"), ("b", "two \"quotes\" here")]);
    let encoded = encode_journal(&journal);
    let ann = smap(&[(STATE, encoded.as_str())]);
    let decoded = decode_journal(&ann);
    assert_eq!(decoded.len(), 2);
    assert_eq!(decoded.get("a").unwrap().as_str(), "x$Y$z");
    assert_eq!(decoded.get("b").unwrap().as_str(), "two \"quotes\" here");
}

#[test]
fn malformed_journal_degrades_to_empty() {
    let ann = smap(&[(STATE, "this is not json")]);
    let decoded = decode_journal(&ann);
    assert_eq!(decoded.len(), 0);
}

#[test]
fn replace_all_replaces_every_occurrence() {
    let r = replace_all("a$K$b$K$c", "$K$", "X");
    assert_eq!(r.as_str(), "aXbXc");
}

#[test]
fn replace_all_single_pass_never_rescans() {
    // The inserted replacement text is not scanned again for the token.
    let r = replace_all("$K$", "$K$", "pre$K$post");
    assert_eq!(r.as_str(), "pre$K$post");
}

#[test]
fn error_policy_retries_after_a_minute() {
    assert_eq!(error_policy(), 60);
}

#[test]
fn empty_secret_stages_nothing() {
    let ann = smap(&[(TRIGGER, "mysecret"), ("example", "$FOO$")]);
    let secret = secret_of(&[], &[]);
    let ing = ingress_of(Some("ns"), ann);
    match reconcile(&ing, Some(&secret)) {
        ReconcileAction::UpToDate { requeue_secs } => assert_eq!(requeue_secs, 300),
        _ => panic!("an empty replacement set must stage nothing"),
    }
}

#[test]
fn unsorted_secret_pairs_rejected() {
    let d: Vec<(String, Vec<u8>)> = vec![
        (String::from("b"), b"1".to_vec()),
        (String::from("a"), b"2".to_vec()),
    ];
    assert!(SecretView::new(d, Vec::new()).is_none());
}
