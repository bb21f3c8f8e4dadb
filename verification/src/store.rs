//! The competition store: owns the in-memory competition document and
//! exposes the mutation and query operations with their validation
//! rules.  Every operation is total and side-effect-free on failure.

use vstd::prelude::*;
use vstd::pervasive::unreached;
use vstd::set_lib::lemma_len_subset;
use crate::model::{
    Competition, Competitor, CompetitionType, CompetitionView, CompetitorView, JumpAttempt,
    KugelAttempt, PoleVaultAttempt, ids_distinct, jump_view, kugel_view, pole_vault_view,
    roster_view,
};
use crate::error::StoreError;
use crate::num::{dec_digits, lemma_dec_digits_injective, push_char, push_dec_u64};

verus! {

broadcast use vstd::set::group_set_axioms;

/// The store: a single competition document, exclusively owned.  The
/// host serializes access (one operation at a time) and installs a
/// freshly decoded document by replacing `competition` wholesale.
pub struct Storage {
    pub competition: Competition,
}

impl View for Storage {
    type V = CompetitionView;

    open spec fn view(&self) -> CompetitionView {
        self.competition@
    }
}

/// A competition with the given name and an empty roster.
pub open spec fn empty_competition(name: Seq<char>) -> CompetitionView {
    CompetitionView { name, competitors: Seq::empty() }
}

/// Index of the first competitor with the given id, or -1.
pub open spec fn idx_of(cs: Seq<CompetitorView>, id: Seq<char>) -> int
    decreases cs.len(),
{
    if cs.len() == 0 {
        -1
    } else if cs[0].id == id {
        0
    } else {
        let r = idx_of(cs.drop_first(), id);
        if r < 0 {
            -1
        } else {
            r + 1
        }
    }
}

/// Whether some competitor in the roster carries the given id.
pub open spec fn roster_has(cs: Seq<CompetitorView>, id: Seq<char>) -> bool {
    exists|j: int| 0 <= j < cs.len() && cs[j].id == id
}

/// The id the store generates from a counter value.
pub open spec fn id_str(k: nat) -> Seq<char> {
    seq!['c'] + dec_digits(k)
}

/// A freshly created competitor: given identity, all result fields
/// empty.
pub open spec fn blank_competitor(
    id: Seq<char>,
    name: Seq<char>,
    competition_type: CompetitionType,
) -> CompetitorView {
    CompetitorView {
        id,
        name,
        competition_type,
        pole_vault_attempts: None,
        climbing_time: None,
        sprint_time: None,
        sprint_5jump: None,
        kugel_distance: None,
        wsprint_time: None,
        kugel_attempts: None,
    }
}

/// What `add_competitor` does: append one blank competitor under an id
/// that no competitor of the prior roster carries.
pub open spec fn add_step(
    pre: CompetitionView,
    post: CompetitionView,
    id: Seq<char>,
    name: Seq<char>,
    competition_type: CompetitionType,
) -> bool {
    &&& !roster_has(pre.competitors, id)
    &&& post.name == pre.name
    &&& post.competitors == pre.competitors.push(blank_competitor(id, name, competition_type))
}

/// The document after replacing the competitor at index `k`.
pub open spec fn update_at(pre: CompetitionView, k: int, cv: CompetitorView) -> CompetitionView {
    CompetitionView { name: pre.name, competitors: pre.competitors.update(k, cv) }
}

/// Pole-vault attempts of a competitor, the absent field read as the
/// empty sequence.
pub open spec fn or_empty_pv(o: Option<Seq<(int, bool)>>) -> Seq<(int, bool)> {
    match o {
        Some(s) => s,
        None => Seq::empty(),
    }
}

/// Distance attempts of a competitor, the absent field read as the
/// empty sequence.
pub open spec fn or_empty_dist(o: Option<Seq<int>>) -> Seq<int> {
    match o {
        Some(s) => s,
        None => Seq::empty(),
    }
}

/// Failed attempts recorded at exactly height `h`.
pub open spec fn count_failures_at(a: Seq<(int, bool)>, h: int) -> nat
    decreases a.len(),
{
    if a.len() == 0 {
        0
    } else {
        count_failures_at(a.drop_last(), h) + if a.last().0 == h && !a.last().1 {
            1nat
        } else {
            0nat
        }
    }
}

/// The elimination rule: a new attempt at height `h` is barred when
/// some single height strictly below `h` already carries three or more
/// failed attempts.
pub open spec fn vault_blocked(a: Seq<(int, bool)>, h: int) -> bool {
    exists|i: int|
        0 <= i < a.len() && a[i].0 < h && !a[i].1 && count_failures_at(a, a[i].0) >= 3
}

/// Greatest height among the successful attempts, if any.
pub open spec fn highest_cleared(a: Seq<(int, bool)>) -> Option<int>
    decreases a.len(),
{
    if a.len() == 0 {
        None
    } else {
        let rest = highest_cleared(a.drop_last());
        if a.last().1 {
            match rest {
                Some(m) => if a.last().0 > m {
                    Some(a.last().0)
                } else {
                    Some(m)
                },
                None => Some(a.last().0),
            }
        } else {
            rest
        }
    }
}

proof fn lemma_roster_view_push(s: Seq<Competitor>, c: Competitor)
    ensures
        roster_view(s.push(c)) =~= roster_view(s).push(c@),
{
    assert forall|j: int| 0 <= j < s.len() + 1 implies roster_view(s.push(c))[j] == roster_view(
        s,
    ).push(c@)[j] by {
        if j < s.len() {
            assert(s.push(c)[j] == s[j]);
        } else {
            assert(s.push(c)[j] == c);
        }
    }
}

proof fn lemma_roster_view_update(s: Seq<Competitor>, i: int, c: Competitor)
    requires
        0 <= i < s.len(),
    ensures
        roster_view(s.update(i, c)) =~= roster_view(s).update(i, c@),
{
    assert forall|j: int| 0 <= j < s.len() implies roster_view(s.update(i, c))[j] == roster_view(
        s,
    ).update(i, c@)[j] by {
        if j == i {
            assert(s.update(i, c)[j] == c);
        } else {
            assert(s.update(i, c)[j] == s[j]);
        }
    }
}

/// If the first `k` entries do not carry `id`, and entry `k` (when
/// there is one) does, then `idx_of` finds exactly `k`; a fruitless
/// full scan means `idx_of` is -1.
proof fn lemma_idx_of_first(cs: Seq<CompetitorView>, id: Seq<char>, k: int)
    requires
        0 <= k <= cs.len(),
        forall|j: int| 0 <= j < k ==> cs[j].id != id,
        k < cs.len() ==> cs[k].id == id,
    ensures
        k < cs.len() ==> idx_of(cs, id) == k,
        k == cs.len() ==> idx_of(cs, id) == -1,
    decreases cs.len(),
{
    if cs.len() == 0 {
    } else if cs[0].id == id {
        assert(k == 0);
    } else {
        assert(k >= 1);
        assert forall|j: int| 0 <= j < k - 1 implies cs.drop_first()[j].id != id by {
            assert(cs.drop_first()[j] == cs[j + 1]);
        }
        if k < cs.len() {
            assert(cs.drop_first()[k - 1] == cs[k]);
        }
        lemma_idx_of_first(cs.drop_first(), id, k - 1);
    }
}

/// `idx_of` finds the first competitor with the id, and a negative
/// answer means the id is absent.
pub proof fn lemma_idx_of_props(cs: Seq<CompetitorView>, id: Seq<char>)
    ensures
        idx_of(cs, id) == -1 || (0 <= idx_of(cs, id) < cs.len()),
        idx_of(cs, id) >= 0 ==> cs[idx_of(cs, id)].id == id,
        idx_of(cs, id) == -1 ==> !roster_has(cs, id),
        roster_has(cs, id) ==> idx_of(cs, id) >= 0,
    decreases cs.len(),
{
    if cs.len() == 0 {
    } else if cs[0].id == id {
    } else {
        lemma_idx_of_props(cs.drop_first(), id);
        let r = idx_of(cs.drop_first(), id);
        if r >= 0 {
            assert(cs.drop_first()[r] == cs[r + 1]);
        } else {
            assert forall|j: int| 0 <= j < cs.len() implies cs[j].id != id by {
                if j >= 1 {
                    assert(cs.drop_first()[j - 1] == cs[j]);
                }
            }
        }
    }
}

/// Compares two strings by their character sequences.
fn str_equal(a: &str, b: &str) -> (r: bool)
    ensures
        r == (a@ == b@),
{
    let la = a.unicode_len();
    let lb = b.unicode_len();
    if la != lb {
        return false;
    }
    let mut i: usize = 0;
    while i < la
        invariant
            la == a@.len(),
            la == b@.len(),
            0 <= i <= la,
            forall|j: int| 0 <= j < i ==> a@[j] == b@[j],
        decreases la - i,
    {
        if a.get_char(i) != b.get_char(i) {
            return false;
        }
        i += 1;
    }
    proof {
        assert(a@ =~= b@);
    }
    true
}

/// Index of the first competitor with the given id, if any.
fn find_index(comps: &Vec<Competitor>, id: &str) -> (r: Option<usize>)
    ensures
        (match r {
            Some(k) => 0 <= k < comps@.len() && idx_of(roster_view(comps@), id@) == k,
            None => idx_of(roster_view(comps@), id@) == -1,
        }),
{
    let ghost cs = roster_view(comps@);
    let mut k: usize = 0;
    while k < comps.len()
        invariant
            0 <= k <= comps@.len(),
            cs == roster_view(comps@),
            forall|j: int| 0 <= j < k ==> cs[j].id != id@,
        decreases comps@.len() - k,
    {
        if str_equal(comps[k].id.as_str(), id) {
            proof {
                lemma_idx_of_first(cs, id@, k as int);
            }
            return Some(k);
        }
        k += 1;
    }
    proof {
        lemma_idx_of_first(cs, id@, k as int);
    }
    None
}

/// The set of the first `m` generated ids has exactly `m` elements.
proof fn lemma_id_str_set_card(m: nat)
    ensures
        ({
            let s = Set::new(|x: Seq<char>| exists|j: nat| j < m && x == id_str(j));
            s.finite() && s.len() == m
        }),
    decreases m,
{
    let s = Set::new(|x: Seq<char>| exists|j: nat| j < m && x == id_str(j));
    if m == 0 {
        assert(s =~= Set::<Seq<char>>::empty());
    } else {
        let m1 = (m - 1) as nat;
        lemma_id_str_set_card(m1);
        let s0 = Set::new(|x: Seq<char>| exists|j: nat| j < m1 && x == id_str(j));
        assert(s =~= s0.insert(id_str(m1)));
        assert(!s0.contains(id_str(m1))) by {
            if s0.contains(id_str(m1)) {
                let j = choose|j: nat| j < m1 && id_str(j) == id_str(m1);
                assert(dec_digits(j) =~= dec_digits(m1)) by {
                    assert(dec_digits(j).len() == id_str(j).len() - 1);
                    assert(dec_digits(m1).len() == id_str(m1).len() - 1);
                    assert forall|i: int| 0 <= i < dec_digits(j).len() implies dec_digits(j)[i]
                        == dec_digits(m1)[i] by {
                        assert(id_str(j)[i + 1] == dec_digits(j)[i]);
                        assert(id_str(m1)[i + 1] == dec_digits(m1)[i]);
                    }
                }
                lemma_dec_digits_injective(j, m1);
            }
        }
    }
}

/// If the roster carries every one of the first `m` generated ids, it
/// has at least `m` competitors.
proof fn lemma_id_pigeonhole(cs: Seq<CompetitorView>, m: nat)
    requires
        forall|j: nat| j < m ==> roster_has(cs, id_str(j)),
    ensures
        m <= cs.len(),
{
    let idset = Set::new(|x: Seq<char>| exists|j: nat| j < m && x == id_str(j));
    lemma_id_str_set_card(m);
    let ids = cs.map_values(|cv: CompetitorView| cv.id);
    assert(idset <= ids.to_set()) by {
        assert forall|x: Seq<char>| idset.contains(x) implies ids.to_set().contains(x) by {
            let j = choose|j: nat| j < m && x == id_str(j);
            assert(roster_has(cs, id_str(j)));
            let p = choose|p: int| 0 <= p < cs.len() && cs[p].id == id_str(j);
            assert(ids[p] == x);
        }
    }
    ids.lemma_cardinality_of_set();
    lemma_len_subset(idset, ids.to_set());
}

/// Renders the id for counter value `k`.
fn make_id(k: usize) -> (r: String)
    ensures
        r@ == id_str(k as nat),
{
    let mut s = String::new();
    push_char(&mut s, 'c');
    push_dec_u64(&mut s, k as u64);
    proof {
        assert(s@ =~= id_str(k as nat));
    }
    s
}

/// An id that no competitor of the roster carries.
fn fresh_id(comps: &Vec<Competitor>) -> (id: String)
    ensures
        !roster_has(roster_view(comps@), id@),
{
    let ghost cs = roster_view(comps@);
    let n = comps.len();
    let mut k: usize = 0;
    while k <= n
        invariant
            0 <= k <= n,
            n == comps@.len(),
            cs == roster_view(comps@),
            forall|j: nat| j < k ==> roster_has(cs, id_str(j)),
        decreases n - k,
    {
        let cand = make_id(k);
        match find_index(comps, cand.as_str()) {
            None => {
                proof {
                    lemma_idx_of_props(cs, cand@);
                }
                return cand;
            },
            Some(_) => {
                proof {
                    lemma_idx_of_props(cs, cand@);
                    assert(roster_has(cs, id_str(k as nat)));
                    lemma_id_pigeonhole(cs, (k + 1) as nat);
                }
            },
        }
        k += 1;
    }
    proof {
        lemma_id_pigeonhole(cs, (n + 1) as nat);
    }
    unreached()
}

proof fn lemma_pv_view_push(s: Seq<PoleVaultAttempt>, a: PoleVaultAttempt)
    ensures
        pole_vault_view(s.push(a)) =~= pole_vault_view(s).push((a.height as int, a.successful)),
{
    assert forall|j: int| 0 <= j < s.len() + 1 implies pole_vault_view(s.push(a))[j]
        == pole_vault_view(s).push((a.height as int, a.successful))[j] by {
        if j < s.len() {
            assert(s.push(a)[j] == s[j]);
        } else {
            assert(s.push(a)[j] == a);
        }
    }
}

proof fn lemma_kugel_view_push(s: Seq<KugelAttempt>, a: KugelAttempt)
    ensures
        kugel_view(s.push(a)) =~= kugel_view(s).push(a.distance as int),
{
    assert forall|j: int| 0 <= j < s.len() + 1 implies kugel_view(s.push(a))[j] == kugel_view(
        s,
    ).push(a.distance as int)[j] by {
        if j < s.len() {
            assert(s.push(a)[j] == s[j]);
        } else {
            assert(s.push(a)[j] == a);
        }
    }
}

proof fn lemma_jump_view_push(s: Seq<JumpAttempt>, a: JumpAttempt)
    ensures
        jump_view(s.push(a)) =~= jump_view(s).push(a.distance as int),
{
    assert forall|j: int| 0 <= j < s.len() + 1 implies jump_view(s.push(a))[j] == jump_view(
        s,
    ).push(a.distance as int)[j] by {
        if j < s.len() {
            assert(s.push(a)[j] == s[j]);
        } else {
            assert(s.push(a)[j] == a);
        }
    }
}

/// Failed attempts at exactly height `h`, counted over the whole list.
fn count_failures_exec(v: &Vec<PoleVaultAttempt>, h: i64) -> (r: usize)
    ensures
        r as nat == count_failures_at(pole_vault_view(v@), h as int),
{
    let ghost a = pole_vault_view(v@);
    let mut cnt: usize = 0;
    let mut j: usize = 0;
    while j < v.len()
        invariant
            0 <= j <= v@.len(),
            a == pole_vault_view(v@),
            cnt <= j,
            cnt as nat == count_failures_at(a.take(j as int), h as int),
        decreases v@.len() - j,
    {
        proof {
            assert(a.take(j as int + 1).drop_last() =~= a.take(j as int));
            assert(a.take(j as int + 1).last() == a[j as int]);
            assert(a[j as int] == (v@[j as int].height as int, v@[j as int].successful));
        }
        if v[j].height == h && !v[j].successful {
            cnt += 1;
        }
        j += 1;
    }
    proof {
        assert(a.take(v@.len() as int) =~= a);
    }
    cnt
}

/// Whether recording a new attempt at height `h` is barred by the
/// elimination rule.
fn vault_blocked_exec(v: &Vec<PoleVaultAttempt>, h: i64) -> (r: bool)
    ensures
        r == vault_blocked(pole_vault_view(v@), h as int),
{
    let ghost a = pole_vault_view(v@);
    let mut i: usize = 0;
    while i < v.len()
        invariant
            0 <= i <= v@.len(),
            a == pole_vault_view(v@),
            forall|ii: int|
                0 <= ii < i ==> !(#[trigger] a[ii].0 < h && !a[ii].1 && count_failures_at(
                    a,
                    a[ii].0,
                ) >= 3),
        decreases v@.len() - i,
    {
        proof {
            assert(a[i as int] == (v@[i as int].height as int, v@[i as int].successful));
        }
        if v[i].height < h && !v[i].successful {
            let cnt = count_failures_exec(v, v[i].height);
            if cnt >= 3 {
                proof {
                    assert(a[i as int].0 < h as int && !a[i as int].1 && count_failures_at(
                        a,
                        a[i as int].0,
                    ) >= 3);
                }
                return true;
            }
        }
        i += 1;
    }
    false
}

/// Greatest height among the successful attempts of the list.
fn highest_cleared_exec(v: &Vec<PoleVaultAttempt>) -> (r: Option<i64>)
    ensures
        crate::model::opt_int_view(r) == highest_cleared(pole_vault_view(v@)),
{
    let ghost a = pole_vault_view(v@);
    let mut best: Option<i64> = None;
    let mut j: usize = 0;
    while j < v.len()
        invariant
            0 <= j <= v@.len(),
            a == pole_vault_view(v@),
            crate::model::opt_int_view(best) == highest_cleared(a.take(j as int)),
        decreases v@.len() - j,
    {
        proof {
            assert(a.take(j as int + 1).drop_last() =~= a.take(j as int));
            assert(a.take(j as int + 1).last() == a[j as int]);
            assert(a[j as int] == (v@[j as int].height as int, v@[j as int].successful));
        }
        if v[j].successful {
            best = match best {
                Some(m) => if v[j].height > m {
                    Some(v[j].height)
                } else {
                    Some(m)
                },
                None => Some(v[j].height),
            };
        }
        j += 1;
    }
    proof {
        assert(a.take(v@.len() as int) =~= a);
    }
    best
}

impl Default for Storage {
    /// An unnamed, empty competition.
    fn default() -> (r: Self)
        ensures
            r@ == empty_competition(Seq::<char>::empty()),
    {
        let r = Storage {
            competition: Competition { name: String::new(), competitors: Vec::new() },
        };
        proof {
            assert(r@ =~= empty_competition(Seq::<char>::empty()));
        }
        r
    }
}

impl Storage {
    /// A fresh, empty competition with the given name.  Installing the
    /// result replaces the prior in-memory document wholesale.
    pub fn new(name: &str) -> (r: Self)
        ensures
            r@ == empty_competition(name@),
    {
        let r = Storage {
            competition: Competition { name: String::from_str(name), competitors: Vec::new() },
        };
        proof {
            assert(r@ =~= empty_competition(name@));
        }
        r
    }

    /// The current document, for read-only consumption.
    pub fn get_competition_data(&self) -> (r: &Competition)
        ensures
            r@ == self@,
    {
        &self.competition
    }

    /// Appends a new competitor with all result fields empty, under a
    /// store-assigned id that is distinct from every id already in the
    /// roster, and returns that id.
    pub fn add_competitor(&mut self, name: &str, competition_type: CompetitionType) -> (id: String)
        ensures
            add_step(old(self)@, final(self)@, id@, name@, competition_type),
    {
        let id = fresh_id(&self.competition.competitors);
        let stored = Competitor {
            id: id.clone(),
            name: String::from_str(name),
            competition_type,
            pole_vault_attempts: None,
            climbing_time: None,
            sprint_time: None,
            sprint_5jump: None,
            kugel_distance: None,
            wsprint_time: None,
            kugel_attempts: None,
        };
        proof {
            lemma_roster_view_push(self.competition.competitors@, stored);
        }
        self.competition.competitors.push(stored);
        id
    }

    /// Overwrites the competitor's sprint time; fails with `NotFound`
    /// if no competitor has the id.  The value is stored as given, with
    /// no plausibility check.
    pub fn set_sprint_time(&mut self, competitor_id: String, time: i64) -> (r: Result<
        (),
        StoreError,
    >)
        ensures
            ({
                let cs = old(self)@.competitors;
                let k = idx_of(cs, competitor_id@);
                if k >= 0 {
                    r is Ok && final(self)@ == update_at(
                        old(self)@,
                        k,
                        (CompetitorView { sprint_time: Some(time as int), ..cs[k] }),
                    )
                } else {
                    (r matches Err(StoreError::NotFound)) && final(self)@ == old(self)@
                }
            }),
    {
        match find_index(&self.competition.competitors, competitor_id.as_str()) {
            Some(i) => {
                let c = &mut self.competition.competitors[i];
                c.sprint_time = Some(time);
                proof {
                    let oldc = old(self).competition.competitors@;
                    lemma_roster_view_update(
                        oldc,
                        i as int,
                        self.competition.competitors@[i as int],
                    );
                    assert(self@ =~= update_at(
                        old(self)@,
                        i as int,
                        (CompetitorView {
                            sprint_time: Some(time as int),
                            ..old(self)@.competitors[i as int]
                        }),
                    ));
                }
                Ok(())
            },
            None => Err(StoreError::NotFound),
        }
    }

    /// Overwrites the competitor's climbing time; fails with
    /// `NotFound` if no competitor has the id.
    pub fn set_climbing_time(&mut self, competitor_id: String, time: i64) -> (r: Result<
        (),
        StoreError,
    >)
        ensures
            ({
                let cs = old(self)@.competitors;
                let k = idx_of(cs, competitor_id@);
                if k >= 0 {
                    r is Ok && final(self)@ == update_at(
                        old(self)@,
                        k,
                        (CompetitorView { climbing_time: Some(time as int), ..cs[k] }),
                    )
                } else {
                    (r matches Err(StoreError::NotFound)) && final(self)@ == old(self)@
                }
            }),
    {
        match find_index(&self.competition.competitors, competitor_id.as_str()) {
            Some(i) => {
                let c = &mut self.competition.competitors[i];
                c.climbing_time = Some(time);
                proof {
                    let oldc = old(self).competition.competitors@;
                    lemma_roster_view_update(
                        oldc,
                        i as int,
                        self.competition.competitors@[i as int],
                    );
                    assert(self@ =~= update_at(
                        old(self)@,
                        i as int,
                        (CompetitorView {
                            climbing_time: Some(time as int),
                            ..old(self)@.competitors[i as int]
                        }),
                    ));
                }
                Ok(())
            },
            None => Err(StoreError::NotFound),
        }
    }

    /// Overwrites the competitor's shot-put distance; fails with
    /// `NotFound` if no competitor has the id.
    pub fn set_kugel_distance(&mut self, competitor_id: String, distance: i64) -> (r: Result<
        (),
        StoreError,
    >)
        ensures
            ({
                let cs = old(self)@.competitors;
                let k = idx_of(cs, competitor_id@);
                if k >= 0 {
                    r is Ok && final(self)@ == update_at(
                        old(self)@,
                        k,
                        (CompetitorView { kugel_distance: Some(distance as int), ..cs[k] }),
                    )
                } else {
                    (r matches Err(StoreError::NotFound)) && final(self)@ == old(self)@
                }
            }),
    {
        match find_index(&self.competition.competitors, competitor_id.as_str()) {
            Some(i) => {
                let c = &mut self.competition.competitors[i];
                c.kugel_distance = Some(distance);
                proof {
                    let oldc = old(self).competition.competitors@;
                    lemma_roster_view_update(
                        oldc,
                        i as int,
                        self.competition.competitors@[i as int],
                    );
                    assert(self@ =~= update_at(
                        old(self)@,
                        i as int,
                        (CompetitorView {
                            kugel_distance: Some(distance as int),
                            ..old(self)@.competitors[i as int]
                        }),
                    ));
                }
                Ok(())
            },
            None => Err(StoreError::NotFound),
        }
    }

    /// Records a w-sprint result.  The store keeps one shared sprint
    /// time per competitor: this overwrites the same `sprint_time`
    /// field that `set_sprint_time` does.  Fails with `NotFound` if no
    /// competitor has the id.
    pub fn set_wsprint_time(&mut self, competitor_id: String, time: i64) -> (r: Result<
        (),
        StoreError,
    >)
        ensures
            ({
                let cs = old(self)@.competitors;
                let k = idx_of(cs, competitor_id@);
                if k >= 0 {
                    r is Ok && final(self)@ == update_at(
                        old(self)@,
                        k,
                        (CompetitorView { sprint_time: Some(time as int), ..cs[k] }),
                    )
                } else {
                    (r matches Err(StoreError::NotFound)) && final(self)@ == old(self)@
                }
            }),
    {
        self.set_sprint_time(competitor_id, time)
    }

    /// Records one pole-vault attempt, unless the elimination rule
    /// bars the height: three or more failures recorded at one single
    /// lower height reject the attempt with `RuleViolation` and leave
    /// the document unchanged.  Fails with `NotFound` if no competitor
    /// has the id.
    pub fn add_pole_vault_attempt(
        &mut self,
        competitor_id: &str,
        height: i64,
        successful: bool,
    ) -> (r: Result<(), StoreError>)
        ensures
            ({
                let cs = old(self)@.competitors;
                let k = idx_of(cs, competitor_id@);
                if k < 0 {
                    (r matches Err(StoreError::NotFound)) && final(self)@ == old(self)@
                } else if vault_blocked(or_empty_pv(cs[k].pole_vault_attempts), height as int) {
                    (r matches Err(StoreError::RuleViolation)) && final(self)@ == old(self)@
                } else {
                    r is Ok && final(self)@ == update_at(
                        old(self)@,
                        k,
                        (CompetitorView {
                            pole_vault_attempts: Some(
                                or_empty_pv(cs[k].pole_vault_attempts).push(
                                    (height as int, successful),
                                ),
                            ),
                            ..cs[k]
                        }),
                    )
                }
            }),
    {
        match find_index(&self.competition.competitors, competitor_id) {
            Some(i) => {
                let c = &mut self.competition.competitors[i];
                let ghost oldfield = c.pole_vault_attempts;
                let mut attempts = match c.pole_vault_attempts.take() {
                    Some(v) => v,
                    None => Vec::new(),
                };
                proof {
                    assert(pole_vault_view(Seq::<PoleVaultAttempt>::empty())
                        =~= Seq::<(int, bool)>::empty());
                }
                if vault_blocked_exec(&attempts, height) {
                    c.pole_vault_attempts = Some(attempts);
                    proof {
                        assert(self.competition.competitors@ =~= old(
                            self,
                        ).competition.competitors@);
                        assert(self@ =~= old(self)@);
                    }
                    Err(StoreError::RuleViolation)
                } else {
                    proof {
                        lemma_pv_view_push(
                            attempts@,
                            (PoleVaultAttempt { height, successful }),
                        );
                    }
                    attempts.push(PoleVaultAttempt { height, successful });
                    c.pole_vault_attempts = Some(attempts);
                    proof {
                        let oldc = old(self).competition.competitors@;
                        lemma_roster_view_update(
                            oldc,
                            i as int,
                            self.competition.competitors@[i as int],
                        );
                        assert(self@ =~= update_at(
                            old(self)@,
                            i as int,
                            (CompetitorView {
                                pole_vault_attempts: Some(
                                    or_empty_pv(
                                        old(self)@.competitors[i as int].pole_vault_attempts,
                                    ).push((height as int, successful)),
                                ),
                                ..old(self)@.competitors[i as int]
                            }),
                        ));
                    }
                    Ok(())
                }
            },
            None => Err(StoreError::NotFound),
        }
    }

    /// The greatest height among the competitor's successful
    /// pole-vault attempts.  An unknown id and a competitor without a
    /// success both yield `None`: the query reports "no data", never
    /// an error.
    pub fn get_highest_cleared_height(&self, competitor_id: &str) -> (r: Option<i64>)
        ensures
            ({
                let cs = self@.competitors;
                let k = idx_of(cs, competitor_id@);
                crate::model::opt_int_view(r) == if k >= 0 {
                    highest_cleared(or_empty_pv(cs[k].pole_vault_attempts))
                } else {
                    None::<int>
                }
            }),
    {
        match find_index(&self.competition.competitors, competitor_id) {
            Some(i) => {
                let c = &self.competition.competitors[i];
                match &c.pole_vault_attempts {
                    Some(attempts) => highest_cleared_exec(attempts),
                    None => None,
                }
            },
            None => None,
        }
    }

    /// Records one shot-put attempt.  Fails with `NotFound` for an
    /// unknown id, `WrongCategory` unless the competitor is in the
    /// `Wurf` category, and `LimitReached` once five attempts stand
    /// recorded; a failure leaves the document unchanged.
    pub fn add_kugel_attempt(&mut self, competitor_id: &str, distance: i64) -> (r: Result<
        (),
        StoreError,
    >)
        ensures
            ({
                let cs = old(self)@.competitors;
                let k = idx_of(cs, competitor_id@);
                if k < 0 {
                    (r matches Err(StoreError::NotFound)) && final(self)@ == old(self)@
                } else if cs[k].competition_type != CompetitionType::Wurf {
                    (r matches Err(StoreError::WrongCategory)) && final(self)@ == old(self)@
                } else if or_empty_dist(cs[k].kugel_attempts).len() >= 5 {
                    (r matches Err(StoreError::LimitReached)) && final(self)@ == old(self)@
                } else {
                    r is Ok && final(self)@ == update_at(
                        old(self)@,
                        k,
                        (CompetitorView {
                            kugel_attempts: Some(
                                or_empty_dist(cs[k].kugel_attempts).push(distance as int),
                            ),
                            ..cs[k]
                        }),
                    )
                }
            }),
    {
        match find_index(&self.competition.competitors, competitor_id) {
            Some(i) => {
                let c = &mut self.competition.competitors[i];
                match c.competition_type {
                    CompetitionType::Stab => {
                        proof {
                            assert(self.competition.competitors@ =~= old(
                                self,
                            ).competition.competitors@);
                            assert(self@ =~= old(self)@);
                        }
                        Err(StoreError::WrongCategory)
                    },
                    CompetitionType::Wurf => {
                        let mut attempts = match c.kugel_attempts.take() {
                            Some(v) => v,
                            None => Vec::new(),
                        };
                        proof {
                            assert(kugel_view(Seq::<KugelAttempt>::empty())
                                =~= Seq::<int>::empty());
                        }
                        if attempts.len() >= 5 {
                            c.kugel_attempts = Some(attempts);
                            proof {
                                assert(self.competition.competitors@ =~= old(
                                    self,
                                ).competition.competitors@);
                                assert(self@ =~= old(self)@);
                            }
                            Err(StoreError::LimitReached)
                        } else {
                            proof {
                                lemma_kugel_view_push(attempts@, (KugelAttempt { distance }));
                            }
                            attempts.push(KugelAttempt { distance });
                            c.kugel_attempts = Some(attempts);
                            proof {
                                let oldc = old(self).competition.competitors@;
                                lemma_roster_view_update(
                                    oldc,
                                    i as int,
                                    self.competition.competitors@[i as int],
                                );
                                assert(self@ =~= update_at(
                                    old(self)@,
                                    i as int,
                                    (CompetitorView {
                                        kugel_attempts: Some(
                                            or_empty_dist(
                                                old(self)@.competitors[i as int].kugel_attempts,
                                            ).push(distance as int),
                                        ),
                                        ..old(self)@.competitors[i as int]
                                    }),
                                ));
                            }
                            Ok(())
                        }
                    },
                }
            },
            None => Err(StoreError::NotFound),
        }
    }

    /// Records one jump attempt.  Fails with `NotFound` for an unknown
    /// id, `WrongCategory` unless the competitor is in the `Wurf`
    /// category, and `LimitReached` once two attempts stand recorded;
    /// a failure leaves the document unchanged.
    pub fn add_jump_attempt(&mut self, competitor_id: &str, distance: i64) -> (r: Result<
        (),
        StoreError,
    >)
        ensures
            ({
                let cs = old(self)@.competitors;
                let k = idx_of(cs, competitor_id@);
                if k < 0 {
                    (r matches Err(StoreError::NotFound)) && final(self)@ == old(self)@
                } else if cs[k].competition_type != CompetitionType::Wurf {
                    (r matches Err(StoreError::WrongCategory)) && final(self)@ == old(self)@
                } else if or_empty_dist(cs[k].sprint_5jump).len() >= 2 {
                    (r matches Err(StoreError::LimitReached)) && final(self)@ == old(self)@
                } else {
                    r is Ok && final(self)@ == update_at(
                        old(self)@,
                        k,
                        (CompetitorView {
                            sprint_5jump: Some(
                                or_empty_dist(cs[k].sprint_5jump).push(distance as int),
                            ),
                            ..cs[k]
                        }),
                    )
                }
            }),
    {
        match find_index(&self.competition.competitors, competitor_id) {
            Some(i) => {
                let c = &mut self.competition.competitors[i];
                match c.competition_type {
                    CompetitionType::Stab => {
                        proof {
                            assert(self.competition.competitors@ =~= old(
                                self,
                            ).competition.competitors@);
                            assert(self@ =~= old(self)@);
                        }
                        Err(StoreError::WrongCategory)
                    },
                    CompetitionType::Wurf => {
                        let mut attempts = match c.sprint_5jump.take() {
                            Some(v) => v,
                            None => Vec::new(),
                        };
                        proof {
                            assert(jump_view(Seq::<JumpAttempt>::empty()) =~= Seq::<int>::empty());
                        }
                        if attempts.len() >= 2 {
                            c.sprint_5jump = Some(attempts);
                            proof {
                                assert(self.competition.competitors@ =~= old(
                                    self,
                                ).competition.competitors@);
                                assert(self@ =~= old(self)@);
                            }
                            Err(StoreError::LimitReached)
                        } else {
                            proof {
                                lemma_jump_view_push(attempts@, (JumpAttempt { distance }));
                            }
                            attempts.push(JumpAttempt { distance });
                            c.sprint_5jump = Some(attempts);
                            proof {
                                let oldc = old(self).competition.competitors@;
                                lemma_roster_view_update(
                                    oldc,
                                    i as int,
                                    self.competition.competitors@[i as int],
                                );
                                assert(self@ =~= update_at(
                                    old(self)@,
                                    i as int,
                                    (CompetitorView {
                                        sprint_5jump: Some(
                                            or_empty_dist(
                                                old(self)@.competitors[i as int].sprint_5jump,
                                            ).push(distance as int),
                                        ),
                                        ..old(self)@.competitors[i as int]
                                    }),
                                ));
                            }
                            Ok(())
                        }
                    },
                }
            },
            None => Err(StoreError::NotFound),
        }
    }
}

/// Law: an add keeps every id already in the roster and puts the new
/// id in.  Together with `lemma_added_ids_distinct` this gives, by
/// induction over a call sequence, that the ids returned by any
/// sequence of `add_competitor` calls are pairwise distinct: each
/// returned id stays in the roster, and every later add returns an id
/// the roster does not carry.
pub proof fn lemma_add_step_roster_grows(
    pre: CompetitionView,
    post: CompetitionView,
    id: Seq<char>,
    name: Seq<char>,
    competition_type: CompetitionType,
    other: Seq<char>,
)
    requires
        add_step(pre, post, id, name, competition_type),
        roster_has(pre.competitors, other),
    ensures
        roster_has(post.competitors, other),
        roster_has(post.competitors, id),
{
    let j = choose|j: int| 0 <= j < pre.competitors.len() && pre.competitors[j].id == other;
    assert(post.competitors[j].id == other);
    assert(post.competitors[pre.competitors.len() as int].id == id);
}

/// Law: the ids of two competitors added in turn are distinct.  The
/// first add leaves its id in the roster, every operation of the store
/// keeps it there, and a later add returns an id that no competitor of
/// its roster carries — so the ids returned by any sequence of
/// `add_competitor` calls are pairwise distinct.
pub proof fn lemma_added_ids_distinct(
    c0: CompetitionView,
    c1: CompetitionView,
    c2: CompetitionView,
    id1: Seq<char>,
    id2: Seq<char>,
    name1: Seq<char>,
    name2: Seq<char>,
    t1: CompetitionType,
    t2: CompetitionType,
)
    requires
        add_step(c0, c1, id1, name1, t1),
        add_step(c1, c2, id2, name2, t2),
    ensures
        id1 != id2,
{
    let k = c0.competitors.len() as int;
    assert(c1.competitors[k].id == id1);
    assert(roster_has(c1.competitors, id1));
}

/// Law: adding a competitor preserves the uniqueness of roster ids.
pub proof fn lemma_add_preserves_ids_distinct(
    pre: CompetitionView,
    post: CompetitionView,
    id: Seq<char>,
    name: Seq<char>,
    competition_type: CompetitionType,
)
    requires
        add_step(pre, post, id, name, competition_type),
        ids_distinct(pre),
    ensures
        ids_distinct(post),
{
    assert forall|i: int, j: int|
        0 <= i < j < post.competitors.len() implies post.competitors[i].id
        != post.competitors[j].id by {
        if j < pre.competitors.len() {
            assert(post.competitors[i] == pre.competitors[i]);
            assert(post.competitors[j] == pre.competitors[j]);
        } else {
            assert(post.competitors[i] == pre.competitors[i]);
            assert(post.competitors[j].id == id);
            if pre.competitors[i].id == id {
                assert(roster_has(pre.competitors, id));
            }
        }
    }
}

} // verus!

