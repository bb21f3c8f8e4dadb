use competition_store::codec::{decode, encode};
use competition_store::error::StoreError;
use competition_store::model::{
    Competition, Competitor, CompetitionType, JumpAttempt, KugelAttempt, PoleVaultAttempt,
};
use competition_store::store::Storage;

fn blank(id: &str, name: &str, ct: CompetitionType) -> Competitor {
    Competitor {
        id: id.to_string(),
        name: name.to_string(),
        competition_type: ct,
        pole_vault_attempts: None,
        climbing_time: None,
        sprint_time: None,
        sprint_5jump: None,
        kugel_distance: None,
        wsprint_time: None,
        kugel_attempts: None,
    }
}

#[test]
fn encode_empty_competition_exact_text() {
    let c = Competition { name: "Cup".to_string(), competitors: Vec::new() };
    assert_eq!(encode(&c), "{\"name\":\"Cup\",\"competitors\":[]}");
}

#[test]
fn encode_one_competitor_exact_text() {
    let mut c = Competition { name: "Cup".to_string(), competitors: Vec::new() };
    let mut a = blank("c0", "Anna", CompetitionType::Stab);
    a.pole_vault_attempts = Some(vec![
        PoleVaultAttempt { height: 200, successful: true },
        PoleVaultAttempt { height: -5, successful: false },
    ]);
    a.sprint_time = Some(930);
    c.competitors.push(a);
    assert_eq!(
        encode(&c),
        "{\"name\":\"Cup\",\"competitors\":[{\"id\":\"c0\",\"name\":\"Anna\",\"competition_type\":\"Stab\",\"pole_vault_attempts\":[{\"height\":200,\"successful\":true},{\"height\":-5,\"successful\":false}],\"climbing_time\":null,\"sprint_time\":930,\"sprint_5jump\":null,\"kugel_distance\":null,\"wsprint_time\":null,\"kugel_attempts\":null}]}"
    );
}

#[test]
fn round_trip_empty() {
    let c = Competition { name: "".to_string(), competitors: Vec::new() };
    assert_eq!(decode(&encode(&c)), Ok(c));
}

#[test]
fn round_trip_full_document() {
    let mut wurf = blank("c1", "Bea", CompetitionType::Wurf);
    wurf.kugel_attempts = Some(vec![
        KugelAttempt { distance: 512 },
        KugelAttempt { distance: 0 },
        KugelAttempt { distance: -3 },
    ]);
    wurf.sprint_5jump = Some(vec![JumpAttempt { distance: 310 }]);
    wurf.kugel_distance = Some(512);
    wurf.wsprint_time = Some(815);
    let mut stab = blank("c0", "Anna", CompetitionType::Stab);
    stab.pole_vault_attempts = Some(vec![
        PoleVaultAttempt { height: 180, successful: true },
        PoleVaultAttempt { height: 200, successful: false },
    ]);
    stab.climbing_time = Some(1230);
    stab.sprint_time = Some(930);
    let c = Competition {
        name: "Sommerfest 2024".to_string(),
        competitors: vec![stab, wurf],
    };
    assert_eq!(decode(&encode(&c)), Ok(c));
}

#[test]
fn round_trip_names_with_escapes() {
    let mut a = blank("c0", "A\"B\\C", CompetitionType::Stab);
    a.pole_vault_attempts = Some(Vec::new());
    let c = Competition { name: "\\\"\\".to_string(), competitors: vec![a] };
    assert_eq!(decode(&encode(&c)), Ok(c));
}

#[test]
fn round_trip_extreme_values() {
    let mut a = blank("c0", "Edge", CompetitionType::Wurf);
    a.kugel_distance = Some(i64::MIN);
    a.wsprint_time = Some(i64::MAX);
    a.kugel_attempts = Some(vec![KugelAttempt { distance: i64::MIN }]);
    let c = Competition { name: "x".to_string(), competitors: vec![a] };
    assert_eq!(decode(&encode(&c)), Ok(c));
}

#[test]
fn round_trip_document_built_through_the_store() {
    let mut st = Storage::new("Cup");
    let a = st.add_competitor("Anna", CompetitionType::Stab);
    let b = st.add_competitor("Bea", CompetitionType::Wurf);
    st.add_pole_vault_attempt(&a, 180, true).unwrap();
    st.add_pole_vault_attempt(&a, 200, false).unwrap();
    st.set_sprint_time(a.clone(), 930).unwrap();
    st.add_kugel_attempt(&b, 512).unwrap();
    st.add_jump_attempt(&b, 310).unwrap();
    st.set_climbing_time(a.clone(), 1230).unwrap();
    let decoded = decode(&encode(&st.competition)).unwrap();
    assert_eq!(decoded, st.competition);
}

#[test]
fn decode_rejects_malformed_documents() {
    let cases = [
        "",
        "{",
        "{\"name\":\"Cup\"}",
        "{\"name\":\"Cup\",\"competitors\":[",
        "{\"name\":\"Cup\",\"competitors\":[]} ",
        "{\"name\":\"Cup\",\"competitors\":[]}x",
        "{\"Name\":\"Cup\",\"competitors\":[]}",
        "{\"name\":\"Cup\",\"competitors\":[{}]}",
        "{\"name\":Cup,\"competitors\":[]}",
        "{\"name\":\"Cup\",\"competitors\":[{\"id\":\"c0\"}]}",
    ];
    for doc in cases {
        match decode(doc) {
            Err(StoreError::ParseError(_)) => {},
            other => panic!("expected a parse error for {:?}, got {:?}", doc, other),
        }
    }
}

#[test]
fn decode_rejects_out_of_range_numbers() {
    let doc = "{\"name\":\"Cup\",\"competitors\":[{\"id\":\"c0\",\"name\":\"A\",\"competition_type\":\"Stab\",\"pole_vault_attempts\":null,\"climbing_time\":9223372036854775808,\"sprint_time\":null,\"sprint_5jump\":null,\"kugel_distance\":null,\"wsprint_time\":null,\"kugel_attempts\":null}]}";
    match decode(doc) {
        Err(StoreError::ParseError(_)) => {},
        other => panic!("expected a parse error, got {:?}", other),
    }
}

#[test]
fn decode_accepts_minimum_i64() {
    let doc = "{\"name\":\"Cup\",\"competitors\":[{\"id\":\"c0\",\"name\":\"A\",\"competition_type\":\"Wurf\",\"pole_vault_attempts\":null,\"climbing_time\":null,\"sprint_time\":null,\"sprint_5jump\":null,\"kugel_distance\":-9223372036854775808,\"wsprint_time\":null,\"kugel_attempts\":null}]}";
    let c = decode(doc).unwrap();
    assert_eq!(c.competitors[0].kugel_distance, Some(i64::MIN));
}

#[test]
fn decode_then_encode_is_identity_on_canonical_text() {
    let doc = "{\"name\":\"Cup\",\"competitors\":[{\"id\":\"c0\",\"name\":\"A\",\"competition_type\":\"Wurf\",\"pole_vault_attempts\":[],\"climbing_time\":null,\"sprint_time\":null,\"sprint_5jump\":[{\"distance\":310},{\"distance\":320}],\"kugel_distance\":77,\"wsprint_time\":null,\"kugel_attempts\":null}]}";
    let c = decode(doc).unwrap();
    assert_eq!(encode(&c), doc);
}
