use competition_store::error::StoreError;
use competition_store::model::{Competitor, CompetitionType};
use competition_store::store::Storage;
use competition_store::codec::encode;

fn blankish(id: &str) -> Competitor {
    Competitor {
        id: id.to_string(),
        name: "restored".to_string(),
        competition_type: CompetitionType::Stab,
        pole_vault_attempts: None,
        climbing_time: None,
        sprint_time: None,
        sprint_5jump: None,
        kugel_distance: None,
        wsprint_time: None,
        kugel_attempts: None,
    }
}

#[test]
fn new_competition_is_empty() {
    let st = Storage::new("Sommerfest");
    assert_eq!(st.competition.name, "Sommerfest");
    assert!(st.competition.competitors.is_empty());
}

#[test]
fn default_competition_is_unnamed_and_empty() {
    let st = Storage::default();
    assert_eq!(st.competition.name, "");
    assert!(st.competition.competitors.is_empty());
}

#[test]
fn add_competitor_appends_blank_record() {
    let mut st = Storage::new("Cup");
    let id = st.add_competitor("Anna", CompetitionType::Stab);
    assert_eq!(st.competition.competitors.len(), 1);
    let c = &st.competition.competitors[0];
    assert_eq!(c.id, id);
    assert_eq!(c.name, "Anna");
    assert_eq!(c.competition_type, CompetitionType::Stab);
    assert!(c.pole_vault_attempts.is_none());
    assert!(c.climbing_time.is_none());
    assert!(c.sprint_time.is_none());
    assert!(c.sprint_5jump.is_none());
    assert!(c.kugel_distance.is_none());
    assert!(c.wsprint_time.is_none());
    assert!(c.kugel_attempts.is_none());
}

#[test]
fn added_ids_are_pairwise_distinct() {
    let mut st = Storage::new("Cup");
    let mut ids = Vec::new();
    for k in 0..25 {
        let ct = if k % 2 == 0 { CompetitionType::Stab } else { CompetitionType::Wurf };
        ids.push(st.add_competitor("x", ct));
    }
    for a in 0..ids.len() {
        for b in (a + 1)..ids.len() {
            assert_ne!(ids[a], ids[b]);
        }
    }
}

#[test]
fn added_ids_avoid_ids_of_restored_documents() {
    let mut st = Storage::new("Cup");
    // A restored document may already carry ids shaped like generated ones.
    st.competition.competitors.push(blankish("c1"));
    st.competition.competitors.push(blankish("c0"));
    st.competition.competitors.push(blankish("c3"));
    let second = st.add_competitor("b", CompetitionType::Stab);
    assert_ne!(second, "c0");
    assert_ne!(second, "c1");
    assert_ne!(second, "c3");
    let third = st.add_competitor("c", CompetitionType::Stab);
    assert_ne!(third, second);
    assert_ne!(third, "c0");
    assert_ne!(third, "c1");
    assert_ne!(third, "c3");
}

#[test]
fn two_failures_at_lower_height_do_not_block() {
    let mut st = Storage::new("Cup");
    let id = st.add_competitor("Anna", CompetitionType::Stab);
    assert!(st.add_pole_vault_attempt(&id, 200, false).is_ok());
    assert!(st.add_pole_vault_attempt(&id, 200, false).is_ok());
    assert!(st.add_pole_vault_attempt(&id, 210, true).is_ok());
    let attempts = st.competition.competitors[0].pole_vault_attempts.as_ref().unwrap();
    assert_eq!(attempts.len(), 3);
    assert_eq!(attempts[2].height, 210);
    assert!(attempts[2].successful);
}

#[test]
fn three_failures_at_lower_height_block_and_leave_list_unchanged() {
    let mut st = Storage::new("Cup");
    let id = st.add_competitor("Anna", CompetitionType::Stab);
    assert!(st.add_pole_vault_attempt(&id, 200, false).is_ok());
    assert!(st.add_pole_vault_attempt(&id, 200, false).is_ok());
    assert!(st.add_pole_vault_attempt(&id, 200, false).is_ok());
    let r = st.add_pole_vault_attempt(&id, 210, true);
    assert_eq!(r, Err(StoreError::RuleViolation));
    let attempts = st.competition.competitors[0].pole_vault_attempts.as_ref().unwrap();
    assert_eq!(attempts.len(), 3);
}

#[test]
fn three_failures_at_same_height_do_not_block_that_height() {
    let mut st = Storage::new("Cup");
    let id = st.add_competitor("Anna", CompetitionType::Stab);
    for _ in 0..3 {
        assert!(st.add_pole_vault_attempt(&id, 200, false).is_ok());
    }
    // The rule bars only heights strictly above the failed one.
    assert!(st.add_pole_vault_attempt(&id, 200, true).is_ok());
    assert_eq!(
        st.competition.competitors[0].pole_vault_attempts.as_ref().unwrap().len(),
        4
    );
}

#[test]
fn failures_spread_over_heights_do_not_block() {
    let mut st = Storage::new("Cup");
    let id = st.add_competitor("Anna", CompetitionType::Stab);
    assert!(st.add_pole_vault_attempt(&id, 180, false).is_ok());
    assert!(st.add_pole_vault_attempt(&id, 180, false).is_ok());
    assert!(st.add_pole_vault_attempt(&id, 190, false).is_ok());
    assert!(st.add_pole_vault_attempt(&id, 190, false).is_ok());
    assert!(st.add_pole_vault_attempt(&id, 200, true).is_ok());
}

#[test]
fn successes_never_count_toward_the_rule() {
    let mut st = Storage::new("Cup");
    let id = st.add_competitor("Anna", CompetitionType::Stab);
    for _ in 0..3 {
        assert!(st.add_pole_vault_attempt(&id, 200, true).is_ok());
    }
    assert!(st.add_pole_vault_attempt(&id, 210, false).is_ok());
}

#[test]
fn five_shot_attempts_then_limit_reached() {
    let mut st = Storage::new("Cup");
    let id = st.add_competitor("Bea", CompetitionType::Wurf);
    for k in 0..5 {
        assert!(st.add_kugel_attempt(&id, 500 + k).is_ok());
    }
    let r = st.add_kugel_attempt(&id, 999);
    assert_eq!(r, Err(StoreError::LimitReached));
    assert_eq!(
        st.competition.competitors[0].kugel_attempts.as_ref().unwrap().len(),
        5
    );
}

#[test]
fn two_jump_attempts_then_limit_reached() {
    let mut st = Storage::new("Cup");
    let id = st.add_competitor("Bea", CompetitionType::Wurf);
    assert!(st.add_jump_attempt(&id, 310).is_ok());
    assert!(st.add_jump_attempt(&id, 320).is_ok());
    let r = st.add_jump_attempt(&id, 330);
    assert_eq!(r, Err(StoreError::LimitReached));
    assert_eq!(
        st.competition.competitors[0].sprint_5jump.as_ref().unwrap().len(),
        2
    );
}

#[test]
fn jump_attempt_by_vault_competitor_is_wrong_category() {
    let mut st = Storage::new("Cup");
    let id = st.add_competitor("Anna", CompetitionType::Stab);
    let before = encode(&st.competition);
    let r = st.add_jump_attempt(&id, 310);
    assert_eq!(r, Err(StoreError::WrongCategory));
    assert!(st.competition.competitors[0].sprint_5jump.is_none());
    assert_eq!(encode(&st.competition), before);
}

#[test]
fn shot_attempt_by_vault_competitor_is_wrong_category() {
    let mut st = Storage::new("Cup");
    let id = st.add_competitor("Anna", CompetitionType::Stab);
    let r = st.add_kugel_attempt(&id, 500);
    assert_eq!(r, Err(StoreError::WrongCategory));
    assert!(st.competition.competitors[0].kugel_attempts.is_none());
}

#[test]
fn highest_cleared_height_is_maximum_success() {
    let mut st = Storage::new("Cup");
    let id = st.add_competitor("Anna", CompetitionType::Stab);
    assert!(st.add_pole_vault_attempt(&id, 180, true).is_ok());
    assert!(st.add_pole_vault_attempt(&id, 200, true).is_ok());
    assert!(st.add_pole_vault_attempt(&id, 210, false).is_ok());
    assert_eq!(st.get_highest_cleared_height(&id), Some(200));
}

#[test]
fn highest_cleared_height_without_success_is_none() {
    let mut st = Storage::new("Cup");
    let id = st.add_competitor("Anna", CompetitionType::Stab);
    assert_eq!(st.get_highest_cleared_height(&id), None);
    assert!(st.add_pole_vault_attempt(&id, 180, false).is_ok());
    assert_eq!(st.get_highest_cleared_height(&id), None);
    assert_eq!(st.get_highest_cleared_height("nobody"), None);
}

#[test]
fn mutations_on_unknown_id_leave_document_unchanged() {
    let mut st = Storage::new("Cup");
    let id = st.add_competitor("Anna", CompetitionType::Stab);
    assert!(st.add_pole_vault_attempt(&id, 180, true).is_ok());
    let before = encode(&st.competition);
    assert_eq!(st.set_sprint_time("ghost".to_string(), 930), Err(StoreError::NotFound));
    assert_eq!(st.set_climbing_time("ghost".to_string(), 720), Err(StoreError::NotFound));
    assert_eq!(st.set_wsprint_time("ghost".to_string(), 810), Err(StoreError::NotFound));
    assert_eq!(st.set_kugel_distance("ghost".to_string(), 640), Err(StoreError::NotFound));
    assert_eq!(st.add_pole_vault_attempt("ghost", 200, true), Err(StoreError::NotFound));
    assert_eq!(st.add_kugel_attempt("ghost", 500), Err(StoreError::NotFound));
    assert_eq!(st.add_jump_attempt("ghost", 310), Err(StoreError::NotFound));
    assert_eq!(encode(&st.competition), before);
}

#[test]
fn set_times_overwrite_last_write_wins() {
    let mut st = Storage::new("Cup");
    let id = st.add_competitor("Anna", CompetitionType::Stab);
    assert!(st.set_sprint_time(id.clone(), 930).is_ok());
    assert!(st.set_sprint_time(id.clone(), 910).is_ok());
    assert_eq!(st.competition.competitors[0].sprint_time, Some(910));
    assert!(st.set_climbing_time(id.clone(), -5).is_ok());
    assert_eq!(st.competition.competitors[0].climbing_time, Some(-5));
    assert!(st.set_kugel_distance(id.clone(), 0).is_ok());
    assert_eq!(st.competition.competitors[0].kugel_distance, Some(0));
}

#[test]
fn wsprint_updates_the_shared_sprint_time_field() {
    let mut st = Storage::new("Cup");
    let id = st.add_competitor("Bea", CompetitionType::Wurf);
    assert!(st.set_wsprint_time(id.clone(), 815).is_ok());
    assert_eq!(st.competition.competitors[0].sprint_time, Some(815));
    assert_eq!(st.competition.competitors[0].wsprint_time, None);
}

#[test]
fn get_competition_data_returns_the_document() {
    let mut st = Storage::new("Cup");
    st.add_competitor("Anna", CompetitionType::Stab);
    let c = st.get_competition_data();
    assert_eq!(c.name, "Cup");
    assert_eq!(c.competitors.len(), 1);
}

#[test]
fn error_messages() {
    assert_eq!(StoreError::NotFound.message(), "Competitor not found");
    assert_eq!(
        StoreError::RuleViolation.message(),
        "Cannot attempt a height after failing a lower height 3 times"
    );
    assert_eq!(StoreError::WrongCategory.message(), "Competitor is not a Wurf competitor");
    assert_eq!(StoreError::LimitReached.message(), "Maximum number of attempts reached");
    assert_eq!(StoreError::ParseError("bad".to_string()).message(), "bad");
    assert_eq!(StoreError::IoFailure("disk".to_string()).message(), "disk");
}
