//! The competition document: the root aggregate, its competitors and
//! their recorded results, together with the mathematical views that the
//! contracts of the store and the codec are stated over.

use vstd::prelude::*;

verus! {

/// Discipline category of a competitor.  It decides which result fields
/// may be recorded: jump and shot-put attempts belong to the `Wurf`
/// (field/throw) category, the remaining fields are not gated.
#[derive(Debug, Clone, Copy, PartialEq, Eq, Structural)]
pub enum CompetitionType {
    Stab,
    Wurf,
}

/// One pole-vault attempt.  `height` is a fixed-point measurement in
/// hundredths of a unit (200 stands for 2.00 m).
#[derive(Debug, Clone, Copy, PartialEq, Eq, Structural)]
pub struct PoleVaultAttempt {
    pub height: i64,
    pub successful: bool,
}

/// One shot-put attempt; `distance` is in hundredths of a unit.
#[derive(Debug, Clone, Copy, PartialEq, Eq, Structural)]
pub struct KugelAttempt {
    pub distance: i64,
}

/// One jump attempt; `distance` is in hundredths of a unit.
#[derive(Debug, Clone, Copy, PartialEq, Eq, Structural)]
pub struct JumpAttempt {
    pub distance: i64,
}

/// One athlete's record: identity plus the optional per-discipline
/// result fields, each present only once something was recorded.
#[derive(Debug, Clone, PartialEq)]
pub struct Competitor {
    pub id: String,
    pub name: String,
    pub competition_type: CompetitionType,
    pub pole_vault_attempts: Option<Vec<PoleVaultAttempt>>,
    pub climbing_time: Option<i64>,
    pub sprint_time: Option<i64>,
    pub sprint_5jump: Option<Vec<JumpAttempt>>,
    pub kugel_distance: Option<i64>,
    pub wsprint_time: Option<i64>,
    pub kugel_attempts: Option<Vec<KugelAttempt>>,
}

/// The root aggregate: a named competition and its roster, in insertion
/// order.
#[derive(Debug, Clone, PartialEq)]
pub struct Competition {
    pub name: String,
    pub competitors: Vec<Competitor>,
}

/// What the host hands over when it asks for a new competitor.
#[derive(Debug, Clone, PartialEq)]
pub struct AddCompetitorPayload {
    pub name: String,
}

/// Mathematical view of a competitor.  Pole-vault attempts are pairs of
/// (height, successful); jump and shot-put attempts are their distances.
#[verifier::ext_equal]
pub ghost struct CompetitorView {
    pub id: Seq<char>,
    pub name: Seq<char>,
    pub competition_type: CompetitionType,
    pub pole_vault_attempts: Option<Seq<(int, bool)>>,
    pub climbing_time: Option<int>,
    pub sprint_time: Option<int>,
    pub sprint_5jump: Option<Seq<int>>,
    pub kugel_distance: Option<int>,
    pub wsprint_time: Option<int>,
    pub kugel_attempts: Option<Seq<int>>,
}

/// Mathematical view of a competition.
#[verifier::ext_equal]
pub ghost struct CompetitionView {
    pub name: Seq<char>,
    pub competitors: Seq<CompetitorView>,
}

/// View of a roster: each competitor replaced by its view.
pub open spec fn roster_view(comps: Seq<Competitor>) -> Seq<CompetitorView> {
    comps.map_values(|c: Competitor| c@)
}

pub open spec fn opt_int_view(o: Option<i64>) -> Option<int> {
    match o {
        Some(t) => Some(t as int),
        None => None,
    }
}

pub open spec fn pole_vault_view(v: Seq<PoleVaultAttempt>) -> Seq<(int, bool)> {
    v.map_values(|a: PoleVaultAttempt| (a.height as int, a.successful))
}

pub open spec fn jump_view(v: Seq<JumpAttempt>) -> Seq<int> {
    v.map_values(|a: JumpAttempt| a.distance as int)
}

pub open spec fn kugel_view(v: Seq<KugelAttempt>) -> Seq<int> {
    v.map_values(|a: KugelAttempt| a.distance as int)
}

impl View for Competitor {
    type V = CompetitorView;

    open spec fn view(&self) -> CompetitorView {
        CompetitorView {
            id: self.id@,
            name: self.name@,
            competition_type: self.competition_type,
            pole_vault_attempts: match self.pole_vault_attempts {
                Some(v) => Some(pole_vault_view(v@)),
                None => None,
            },
            climbing_time: opt_int_view(self.climbing_time),
            sprint_time: opt_int_view(self.sprint_time),
            sprint_5jump: match self.sprint_5jump {
                Some(v) => Some(jump_view(v@)),
                None => None,
            },
            kugel_distance: opt_int_view(self.kugel_distance),
            wsprint_time: opt_int_view(self.wsprint_time),
            kugel_attempts: match self.kugel_attempts {
                Some(v) => Some(kugel_view(v@)),
                None => None,
            },
        }
    }
}

impl View for Competition {
    type V = CompetitionView;

    open spec fn view(&self) -> CompetitionView {
        CompetitionView {
            name: self.name@,
            competitors: roster_view(self.competitors@),
        }
    }
}

/// Whether every measurement of the competitor fits the fixed-point
/// value range.  Views of executable values always do
/// (`lemma_view_wf`); the round-trip law is stated over such values.
pub open spec fn wf_competitor(c: CompetitorView) -> bool {
    &&& (match c.pole_vault_attempts {
        Some(items) => forall|k: int|
            0 <= k < items.len() ==> i64::MIN <= (#[trigger] items[k]).0 <= i64::MAX,
        None => true,
    })
    &&& (match c.climbing_time {
        Some(x) => i64::MIN <= x <= i64::MAX,
        None => true,
    })
    &&& (match c.sprint_time {
        Some(x) => i64::MIN <= x <= i64::MAX,
        None => true,
    })
    &&& (match c.sprint_5jump {
        Some(items) => forall|k: int|
            0 <= k < items.len() ==> i64::MIN <= #[trigger] items[k] <= i64::MAX,
        None => true,
    })
    &&& (match c.kugel_distance {
        Some(x) => i64::MIN <= x <= i64::MAX,
        None => true,
    })
    &&& (match c.wsprint_time {
        Some(x) => i64::MIN <= x <= i64::MAX,
        None => true,
    })
    &&& (match c.kugel_attempts {
        Some(items) => forall|k: int|
            0 <= k < items.len() ==> i64::MIN <= #[trigger] items[k] <= i64::MAX,
        None => true,
    })
}

/// Whether every measurement of the competition fits the fixed-point
/// value range.
pub open spec fn wf_competition(c: CompetitionView) -> bool {
    forall|j: int| 0 <= j < c.competitors.len() ==> wf_competitor(#[trigger] c.competitors[j])
}

/// The view of any executable competition value is well formed.
pub proof fn lemma_view_wf(c: &Competition)
    ensures
        wf_competition(c@),
{
    assert forall|j: int| 0 <= j < c@.competitors.len() implies wf_competitor(
        #[trigger] c@.competitors[j],
    ) by {
        let ec = c.competitors@[j];
        assert(c@.competitors[j] == ec@);
        match ec.pole_vault_attempts {
            Some(v) => {
                assert forall|k: int|
                    0 <= k < pole_vault_view(v@).len() implies i64::MIN <= (
                    #[trigger] pole_vault_view(v@)[k]).0 <= i64::MAX by {
                    assert(pole_vault_view(v@)[k] == (v@[k].height as int, v@[k].successful));
                }
            },
            None => {},
        }
        match ec.sprint_5jump {
            Some(v) => {
                assert forall|k: int|
                    0 <= k < jump_view(v@).len() implies i64::MIN <= #[trigger] jump_view(v@)[k]
                    <= i64::MAX by {
                    assert(jump_view(v@)[k] == v@[k].distance as int);
                }
            },
            None => {},
        }
        match ec.kugel_attempts {
            Some(v) => {
                assert forall|k: int|
                    0 <= k < kugel_view(v@).len() implies i64::MIN <= #[trigger] kugel_view(v@)[k]
                    <= i64::MAX by {
                    assert(kugel_view(v@)[k] == v@[k].distance as int);
                }
            },
            None => {},
        }
    }
}

/// The invariant of a competition: competitor identifiers are pairwise
/// distinct.  The store preserves it; a document restored from outside
/// is taken as it comes.
pub open spec fn ids_distinct(c: CompetitionView) -> bool {
    forall|i: int, j: int|
        0 <= i < j < c.competitors.len() ==> c.competitors[i].id != c.competitors[j].id
}

} // verus!
