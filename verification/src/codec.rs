//! The persistence codec: renders a competition document as
//! deterministic JSON text and parses it back.  Field names follow the
//! persisted schema; measurements appear as their fixed-point values
//! (hundredths of a unit); absent optional fields appear as `null`.
//!
//! Decoding is strict: it follows the whitespace-free grammar the
//! encoder produces, fields in schema order, and decoding an encoded
//! document is proved to reproduce the original value
//! (`lemma_round_trip`).

use vstd::prelude::*;
use crate::model::{
    Competition, Competitor, CompetitionType, CompetitionView, CompetitorView, JumpAttempt,
    KugelAttempt, PoleVaultAttempt, jump_view, kugel_view, opt_int_view, pole_vault_view,
    roster_view,
};
use crate::error::StoreError;
use crate::num::{
    abs_val, dec_digits, digit_val, digits_val, enc_i64, is_digit, lemma_dec_digits_val,
    lemma_digits_val_prefix, push_char, push_dec_i64,
};

verus! {

// ---------------------------------------------------------------------
// Spec-level encoder
// ---------------------------------------------------------------------
/// Escapes one character for a JSON string body.
pub open spec fn esc_char(c: char) -> Seq<char> {
    if c == '"' || c == '\\' {
        seq!['\\', c]
    } else {
        seq![c]
    }
}

/// Escaped body of a JSON string.
pub open spec fn esc(s: Seq<char>) -> Seq<char>
    decreases s.len(),
{
    if s.len() == 0 {
        Seq::empty()
    } else {
        esc_char(s[0]) + esc(s.drop_first())
    }
}

/// A JSON string: quoted, escaped body.
pub open spec fn enc_string(s: Seq<char>) -> Seq<char> {
    seq!['"'] + esc(s) + seq!['"']
}

pub open spec fn enc_bool(b: bool) -> Seq<char> {
    if b {
        "true"@
    } else {
        "false"@
    }
}

pub open spec fn enc_ctype(t: CompetitionType) -> Seq<char> {
    match t {
        CompetitionType::Stab => "\"Stab\""@,
        CompetitionType::Wurf => "\"Wurf\""@,
    }
}

/// An optional measurement: `null` or its decimal value.
pub open spec fn enc_opt_num(o: Option<int>) -> Seq<char> {
    match o {
        None => "null"@,
        Some(x) => enc_i64(x),
    }
}

/// One pole-vault attempt record.
pub open spec fn enc_pva(a: (int, bool)) -> Seq<char> {
    "{\"height\":"@ + enc_i64(a.0) + ",\"successful\":"@ + enc_bool(a.1) + "}"@
}

/// Comma-separated pole-vault attempt records.
pub open spec fn enc_pva_items(items: Seq<(int, bool)>) -> Seq<char>
    decreases items.len(),
{
    if items.len() == 0 {
        Seq::empty()
    } else if items.len() == 1 {
        enc_pva(items[0])
    } else {
        enc_pva(items[0]) + ","@ + enc_pva_items(items.drop_first())
    }
}

/// An optional pole-vault attempt list.
pub open spec fn enc_opt_pva(o: Option<Seq<(int, bool)>>) -> Seq<char> {
    match o {
        None => "null"@,
        Some(items) => "["@ + enc_pva_items(items) + "]"@,
    }
}

/// One distance attempt record (jump or shot put).
pub open spec fn enc_dist(d: int) -> Seq<char> {
    "{\"distance\":"@ + enc_i64(d) + "}"@
}

/// Comma-separated distance attempt records.
pub open spec fn enc_dist_items(items: Seq<int>) -> Seq<char>
    decreases items.len(),
{
    if items.len() == 0 {
        Seq::empty()
    } else if items.len() == 1 {
        enc_dist(items[0])
    } else {
        enc_dist(items[0]) + ","@ + enc_dist_items(items.drop_first())
    }
}

/// An optional distance attempt list.
pub open spec fn enc_opt_dist(o: Option<Seq<int>>) -> Seq<char> {
    match o {
        None => "null"@,
        Some(items) => "["@ + enc_dist_items(items) + "]"@,
    }
}

/// First half of a competitor record: identity through sprint time.
#[verifier::opaque]
pub open spec fn enc_competitor_head(c: CompetitorView) -> Seq<char> {
    "{\"id\":"@ + enc_string(c.id) + ",\"name\":"@ + enc_string(c.name)
        + ",\"competition_type\":"@ + enc_ctype(c.competition_type)
        + ",\"pole_vault_attempts\":"@ + enc_opt_pva(c.pole_vault_attempts)
        + ",\"climbing_time\":"@ + enc_opt_num(c.climbing_time) + ",\"sprint_time\":"@
        + enc_opt_num(c.sprint_time)
}

/// Second half of a competitor record: jump attempts through the
/// closing brace.
#[verifier::opaque]
pub open spec fn enc_competitor_tail(c: CompetitorView) -> Seq<char> {
    ",\"sprint_5jump\":"@ + enc_opt_dist(c.sprint_5jump) + ",\"kugel_distance\":"@ + enc_opt_num(
        c.kugel_distance,
    ) + ",\"wsprint_time\":"@ + enc_opt_num(c.wsprint_time) + ",\"kugel_attempts\":"@
        + enc_opt_dist(c.kugel_attempts) + "}"@
}

/// One competitor record, fields in schema order.
pub open spec fn enc_competitor(c: CompetitorView) -> Seq<char> {
    enc_competitor_head(c) + enc_competitor_tail(c)
}

/// Comma-separated competitor records.
pub open spec fn enc_comp_items(items: Seq<CompetitorView>) -> Seq<char>
    decreases items.len(),
{
    if items.len() == 0 {
        Seq::empty()
    } else if items.len() == 1 {
        enc_competitor(items[0])
    } else {
        enc_competitor(items[0]) + ","@ + enc_comp_items(items.drop_first())
    }
}

/// The whole competition document.
pub open spec fn enc_competition(c: CompetitionView) -> Seq<char> {
    "{\"name\":"@ + enc_string(c.name) + ",\"competitors\":["@ + enc_comp_items(c.competitors)
        + "]}"@
}

// ---------------------------------------------------------------------
// Spec-level parser.  Each function consumes from index `i` and
// returns the parsed value with the index after it, or `None` for
// malformed text.  The conditions written as `j <= i` guards only
// discharge termination; the round-trip lemmas show they never hold on
// encoded text.
// ---------------------------------------------------------------------
/// Consumes exactly the literal `lit`.
pub open spec fn parse_lit(s: Seq<char>, i: int, lit: Seq<char>) -> Option<int> {
    if 0 <= i && i + lit.len() <= s.len() && s.subrange(i, i + lit.len()) == lit {
        Some(i + lit.len())
    } else {
        None
    }
}

/// Consumes an escaped string body up to and including the closing
/// quote.
pub open spec fn parse_str_chars(s: Seq<char>, i: int) -> Option<(Seq<char>, int)>
    decreases s.len() - i,
{
    if !(0 <= i < s.len()) {
        None
    } else if s[i] == '"' {
        Some((Seq::empty(), i + 1))
    } else if s[i] == '\\' {
        if i + 1 < s.len() && (s[i + 1] == '"' || s[i + 1] == '\\') {
            match parse_str_chars(s, i + 2) {
                Some((t, j)) => Some((seq![s[i + 1]] + t, j)),
                None => None,
            }
        } else {
            None
        }
    } else {
        match parse_str_chars(s, i + 1) {
            Some((t, j)) => Some((seq![s[i]] + t, j)),
            None => None,
        }
    }
}

/// Consumes a quoted, escaped string.
pub open spec fn parse_string(s: Seq<char>, i: int) -> Option<(Seq<char>, int)> {
    if 0 <= i < s.len() && s[i] == '"' {
        parse_str_chars(s, i + 1)
    } else {
        None
    }
}

/// First index at or after `i` that does not hold a digit.
pub open spec fn digits_end(s: Seq<char>, i: int) -> int
    decreases s.len() - i,
{
    if 0 <= i < s.len() && is_digit(s[i]) {
        digits_end(s, i + 1)
    } else {
        i
    }
}

/// Consumes a nonempty run of digits whose value fits in a `u64`.
pub open spec fn parse_u64(s: Seq<char>, i: int) -> Option<(nat, int)> {
    let e = digits_end(s, i);
    if e == i {
        None
    } else {
        let v = digits_val(s.subrange(i, e));
        if v > u64::MAX {
            None
        } else {
            Some((v, e))
        }
    }
}

/// Consumes a decimal integer in the value range of `i64`.
pub open spec fn parse_i64(s: Seq<char>, i: int) -> Option<(int, int)> {
    if 0 <= i < s.len() && s[i] == '-' {
        match parse_u64(s, i + 1) {
            Some((m, j)) => if m <= 0x8000_0000_0000_0000 {
                Some((-(m as int), j))
            } else {
                None
            },
            None => None,
        }
    } else {
        match parse_u64(s, i) {
            Some((m, j)) => if m <= i64::MAX {
                Some((m as int, j))
            } else {
                None
            },
            None => None,
        }
    }
}

pub open spec fn parse_bool(s: Seq<char>, i: int) -> Option<(bool, int)> {
    match parse_lit(s, i, "true"@) {
        Some(j) => Some((true, j)),
        None => match parse_lit(s, i, "false"@) {
            Some(j) => Some((false, j)),
            None => None,
        },
    }
}

pub open spec fn parse_ctype(s: Seq<char>, i: int) -> Option<(CompetitionType, int)> {
    match parse_lit(s, i, "\"Stab\""@) {
        Some(j) => Some((CompetitionType::Stab, j)),
        None => match parse_lit(s, i, "\"Wurf\""@) {
            Some(j) => Some((CompetitionType::Wurf, j)),
            None => None,
        },
    }
}

/// Consumes `null` or a decimal measurement.
pub open spec fn parse_opt_num(s: Seq<char>, i: int) -> Option<(Option<int>, int)> {
    match parse_lit(s, i, "null"@) {
        Some(j) => Some((None, j)),
        None => match parse_i64(s, i) {
            Some((x, j)) => Some((Some(x), j)),
            None => None,
        },
    }
}

/// Consumes one pole-vault attempt record.
pub open spec fn parse_pva(s: Seq<char>, i: int) -> Option<((int, bool), int)> {
    match parse_lit(s, i, "{\"height\":"@) {
        Some(j1) => match parse_i64(s, j1) {
            Some((h, j2)) => match parse_lit(s, j2, ",\"successful\":"@) {
                Some(j3) => match parse_bool(s, j3) {
                    Some((b, j4)) => match parse_lit(s, j4, "}"@) {
                        Some(j5) => Some(((h, b), j5)),
                        None => None,
                    },
                    None => None,
                },
                None => None,
            },
            None => None,
        },
        None => None,
    }
}

/// Consumes one or more pole-vault attempt records, up to and
/// including the closing bracket.
pub open spec fn parse_pva_items(s: Seq<char>, i: int) -> Option<(Seq<(int, bool)>, int)>
    decreases s.len() - i,
{
    match parse_pva(s, i) {
        Some((a, j)) => if !(i < j <= s.len()) {
            None
        } else {
            match parse_lit(s, j, ","@) {
                Some(j2) => if j2 <= j {
                    None
                } else {
                    match parse_pva_items(s, j2) {
                        Some((rest, j3)) => Some((seq![a] + rest, j3)),
                        None => None,
                    }
                },
                None => match parse_lit(s, j, "]"@) {
                    Some(j2) => Some((seq![a], j2)),
                    None => None,
                },
            }
        },
        None => None,
    }
}

/// Consumes `null` or a bracketed pole-vault attempt list.
pub open spec fn parse_opt_pva(s: Seq<char>, i: int) -> Option<(Option<Seq<(int, bool)>>, int)> {
    match parse_lit(s, i, "null"@) {
        Some(j) => Some((None, j)),
        None => match parse_lit(s, i, "["@) {
            Some(j) => match parse_lit(s, j, "]"@) {
                Some(j2) => Some((Some(Seq::empty()), j2)),
                None => match parse_pva_items(s, j) {
                    Some((items, j2)) => Some((Some(items), j2)),
                    None => None,
                },
            },
            None => None,
        },
    }
}

/// Consumes one distance attempt record.
pub open spec fn parse_dist(s: Seq<char>, i: int) -> Option<(int, int)> {
    match parse_lit(s, i, "{\"distance\":"@) {
        Some(j1) => match parse_i64(s, j1) {
            Some((d, j2)) => match parse_lit(s, j2, "}"@) {
                Some(j3) => Some((d, j3)),
                None => None,
            },
            None => None,
        },
        None => None,
    }
}

/// Consumes one or more distance attempt records, up to and including
/// the closing bracket.
pub open spec fn parse_dist_items(s: Seq<char>, i: int) -> Option<(Seq<int>, int)>
    decreases s.len() - i,
{
    match parse_dist(s, i) {
        Some((d, j)) => if !(i < j <= s.len()) {
            None
        } else {
            match parse_lit(s, j, ","@) {
                Some(j2) => if j2 <= j {
                    None
                } else {
                    match parse_dist_items(s, j2) {
                        Some((rest, j3)) => Some((seq![d] + rest, j3)),
                        None => None,
                    }
                },
                None => match parse_lit(s, j, "]"@) {
                    Some(j2) => Some((seq![d], j2)),
                    None => None,
                },
            }
        },
        None => None,
    }
}

/// Consumes `null` or a bracketed distance attempt list.
pub open spec fn parse_opt_dist(s: Seq<char>, i: int) -> Option<(Option<Seq<int>>, int)> {
    match parse_lit(s, i, "null"@) {
        Some(j) => Some((None, j)),
        None => match parse_lit(s, i, "["@) {
            Some(j) => match parse_lit(s, j, "]"@) {
                Some(j2) => Some((Some(Seq::empty()), j2)),
                None => match parse_dist_items(s, j) {
                    Some((items, j2)) => Some((Some(items), j2)),
                    None => None,
                },
            },
            None => None,
        },
    }
}

/// Consumes one competitor record.
#[verifier::opaque]
pub open spec fn parse_competitor(s: Seq<char>, i: int) -> Option<(CompetitorView, int)> {
    match parse_lit(s, i, "{\"id\":"@) {
        Some(j1) => match parse_string(s, j1) {
            Some((id, j2)) => match parse_lit(s, j2, ",\"name\":"@) {
                Some(j3) => match parse_string(s, j3) {
                    Some((name, j4)) => match parse_lit(s, j4, ",\"competition_type\":"@) {
                        Some(j5) => match parse_ctype(s, j5) {
                            Some((ct, j6)) => match parse_lit(
                                s,
                                j6,
                                ",\"pole_vault_attempts\":"@,
                            ) {
                                Some(j7) => match parse_opt_pva(s, j7) {
                                    Some((pv, j8)) => match parse_lit(
                                        s,
                                        j8,
                                        ",\"climbing_time\":"@,
                                    ) {
                                        Some(j9) => match parse_opt_num(s, j9) {
                                            Some((ct2, j10)) => match parse_lit(
                                                s,
                                                j10,
                                                ",\"sprint_time\":"@,
                                            ) {
                                                Some(j11) => match parse_opt_num(s, j11) {
                                                    Some((st, j12)) => parse_competitor_rest(
                                                        s,
                                                        j12,
                                                        id,
                                                        name,
                                                        ct,
                                                        pv,
                                                        ct2,
                                                        st,
                                                    ),
                                                    None => None,
                                                },
                                                None => None,
                                            },
                                            None => None,
                                        },
                                        None => None,
                                    },
                                    None => None,
                                },
                                None => None,
                            },
                            None => None,
                        },
                        None => None,
                    },
                    None => None,
                },
                None => None,
            },
            None => None,
        },
        None => None,
    }
}

/// Continuation of `parse_competitor` after the sprint time.
#[verifier::opaque]
pub open spec fn parse_competitor_rest(
    s: Seq<char>,
    i: int,
    id: Seq<char>,
    name: Seq<char>,
    ct: CompetitionType,
    pv: Option<Seq<(int, bool)>>,
    climbing: Option<int>,
    sprint: Option<int>,
) -> Option<(CompetitorView, int)> {
    match parse_lit(s, i, ",\"sprint_5jump\":"@) {
        Some(j1) => match parse_opt_dist(s, j1) {
            Some((jmp, j2)) => match parse_lit(s, j2, ",\"kugel_distance\":"@) {
                Some(j3) => match parse_opt_num(s, j3) {
                    Some((kd, j4)) => match parse_lit(s, j4, ",\"wsprint_time\":"@) {
                        Some(j5) => match parse_opt_num(s, j5) {
                            Some((ws, j6)) => match parse_lit(s, j6, ",\"kugel_attempts\":"@) {
                                Some(j7) => match parse_opt_dist(s, j7) {
                                    Some((ka, j8)) => match parse_lit(s, j8, "}"@) {
                                        Some(j9) => Some(
                                            (
                                                CompetitorView {
                                                    id,
                                                    name,
                                                    competition_type: ct,
                                                    pole_vault_attempts: pv,
                                                    climbing_time: climbing,
                                                    sprint_time: sprint,
                                                    sprint_5jump: jmp,
                                                    kugel_distance: kd,
                                                    wsprint_time: ws,
                                                    kugel_attempts: ka,
                                                },
                                                j9,
                                            ),
                                        ),
                                        None => None,
                                    },
                                    None => None,
                                },
                                None => None,
                            },
                            None => None,
                        },
                        None => None,
                    },
                    None => None,
                },
                None => None,
            },
            None => None,
        },
        None => None,
    }
}

/// Consumes one or more competitor records, up to and including the
/// closing bracket.
pub open spec fn parse_comp_items(s: Seq<char>, i: int) -> Option<(Seq<CompetitorView>, int)>
    decreases s.len() - i,
{
    match parse_competitor(s, i) {
        Some((c, j)) => if !(i < j <= s.len()) {
            None
        } else {
            match parse_lit(s, j, ","@) {
                Some(j2) => if j2 <= j {
                    None
                } else {
                    match parse_comp_items(s, j2) {
                        Some((rest, j3)) => Some((seq![c] + rest, j3)),
                        None => None,
                    }
                },
                None => match parse_lit(s, j, "]"@) {
                    Some(j2) => Some((seq![c], j2)),
                    None => None,
                },
            }
        },
        None => None,
    }
}

/// Consumes a whole competition document.
pub open spec fn parse_competition(s: Seq<char>, i: int) -> Option<(CompetitionView, int)> {
    match parse_lit(s, i, "{\"name\":"@) {
        Some(j1) => match parse_string(s, j1) {
            Some((name, j2)) => match parse_lit(s, j2, ",\"competitors\":["@) {
                Some(j3) => match parse_lit(s, j3, "]}"@) {
                    Some(j4) => Some((CompetitionView { name, competitors: Seq::empty() }, j4)),
                    None => match parse_comp_items(s, j3) {
                        Some((cs, j4)) => match parse_lit(s, j4, "}"@) {
                            Some(j5) => Some((CompetitionView { name, competitors: cs }, j5)),
                            None => None,
                        },
                        None => None,
                    },
                },
                None => None,
            },
            None => None,
        },
        None => None,
    }
}

/// What `decode` accepts: a document that parses as a competition and
/// has nothing after it.
pub open spec fn spec_decode(s: Seq<char>) -> Option<CompetitionView> {
    match parse_competition(s, 0) {
        Some((c, j)) => if j == s.len() {
            Some(c)
        } else {
            None
        },
        None => None,
    }
}

// ---------------------------------------------------------------------
// Executable encoder
// ---------------------------------------------------------------------
fn push_esc_from(out: &mut String, s: &str, from: usize)
    requires
        from <= s@.len(),
    ensures
        final(out)@ == old(out)@ + esc(s@.subrange(from as int, s@.len() as int)),
    decreases s@.len() - from,
{
    let n = s.unicode_len();
    if from >= n {
        proof {
            assert(s@.subrange(from as int, s@.len() as int) =~= Seq::<char>::empty());
            assert(final(out)@ =~= old(out)@ + esc(Seq::<char>::empty()));
        }
        return ;
    }
    let c = s.get_char(from);
    if c == '"' || c == '\\' {
        push_char(out, '\\');
        push_char(out, c);
    } else {
        push_char(out, c);
    }
    let ghost mid = out@;
    proof {
        assert(mid =~= old(out)@ + esc_char(s@[from as int]));
    }
    push_esc_from(out, s, from + 1);
    proof {
        let tail = s@.subrange(from as int, s@.len() as int);
        assert(tail.drop_first() =~= s@.subrange(from as int + 1, s@.len() as int));
        assert(tail[0] == s@[from as int]);
        assert(esc(tail) == esc_char(s@[from as int]) + esc(tail.drop_first()));
        assert(final(out)@ =~= old(out)@ + esc(tail));
    }
}

fn push_string(out: &mut String, s: &str)
    ensures
        final(out)@ == old(out)@ + enc_string(s@),
{
    push_char(out, '"');
    push_esc_from(out, s, 0);
    push_char(out, '"');
    proof {
        assert(s@.subrange(0, s@.len() as int) =~= s@);
        assert(final(out)@ =~= old(out)@ + enc_string(s@));
    }
}

fn push_bool(out: &mut String, b: bool)
    ensures
        final(out)@ == old(out)@ + enc_bool(b),
{
    if b {
        out.append("true");
    } else {
        out.append("false");
    }
}

fn push_opt_num(out: &mut String, o: &Option<i64>)
    ensures
        final(out)@ == old(out)@ + enc_opt_num(opt_int_view(*o)),
{
    match o {
        None => out.append("null"),
        Some(x) => push_dec_i64(out, *x),
    }
}

fn push_pva(out: &mut String, a: &PoleVaultAttempt)
    ensures
        final(out)@ == old(out)@ + enc_pva((a.height as int, a.successful)),
{
    out.append("{\"height\":");
    push_dec_i64(out, a.height);
    out.append(",\"successful\":");
    push_bool(out, a.successful);
    out.append("}");
    proof {
        assert(final(out)@ =~= old(out)@ + enc_pva((a.height as int, a.successful)));
    }
}

fn push_pva_items(out: &mut String, v: &Vec<PoleVaultAttempt>, from: usize)
    requires
        from <= v@.len(),
    ensures
        final(out)@ == old(out)@ + enc_pva_items(
            pole_vault_view(v@).subrange(from as int, v@.len() as int),
        ),
    decreases v@.len() - from,
{
    let ghost items = pole_vault_view(v@).subrange(from as int, v@.len() as int);
    if from >= v.len() {
        proof {
            assert(items =~= Seq::<(int, bool)>::empty());
            assert(final(out)@ =~= old(out)@ + enc_pva_items(items));
        }
        return ;
    }
    push_pva(out, &v[from]);
    proof {
        assert(items[0] == (v@[from as int].height as int, v@[from as int].successful));
    }
    if from + 1 < v.len() {
        out.append(",");
        push_pva_items(out, v, from + 1);
        proof {
            assert(items.drop_first() =~= pole_vault_view(v@).subrange(
                from as int + 1,
                v@.len() as int,
            ));
            assert(final(out)@ =~= old(out)@ + enc_pva_items(items));
        }
    } else {
        proof {
            assert(items.len() == 1);
            assert(final(out)@ =~= old(out)@ + enc_pva_items(items));
        }
    }
}

fn push_opt_pva(out: &mut String, o: &Option<Vec<PoleVaultAttempt>>)
    ensures
        final(out)@ == old(out)@ + enc_opt_pva(
            match *o {
                Some(v) => Some(pole_vault_view(v@)),
                None => None,
            },
        ),
{
    match o {
        None => out.append("null"),
        Some(v) => {
            out.append("[");
            push_pva_items(out, v, 0);
            out.append("]");
            proof {
                assert(pole_vault_view(v@).subrange(0, v@.len() as int) =~= pole_vault_view(v@));
                assert(final(out)@ =~= old(out)@ + enc_opt_pva(Some(pole_vault_view(v@))));
            }
        },
    }
}

fn push_dist(out: &mut String, d: i64)
    ensures
        final(out)@ == old(out)@ + enc_dist(d as int),
{
    out.append("{\"distance\":");
    push_dec_i64(out, d);
    out.append("}");
    proof {
        assert(final(out)@ =~= old(out)@ + enc_dist(d as int));
    }
}

fn push_jump_items(out: &mut String, v: &Vec<JumpAttempt>, from: usize)
    requires
        from <= v@.len(),
    ensures
        final(out)@ == old(out)@ + enc_dist_items(
            jump_view(v@).subrange(from as int, v@.len() as int),
        ),
    decreases v@.len() - from,
{
    let ghost items = jump_view(v@).subrange(from as int, v@.len() as int);
    if from >= v.len() {
        proof {
            assert(items =~= Seq::<int>::empty());
            assert(final(out)@ =~= old(out)@ + enc_dist_items(items));
        }
        return ;
    }
    push_dist(out, v[from].distance);
    proof {
        assert(items[0] == v@[from as int].distance as int);
    }
    if from + 1 < v.len() {
        out.append(",");
        push_jump_items(out, v, from + 1);
        proof {
            assert(items.drop_first() =~= jump_view(v@).subrange(from as int + 1, v@.len() as int));
            assert(final(out)@ =~= old(out)@ + enc_dist_items(items));
        }
    } else {
        proof {
            assert(items.len() == 1);
            assert(final(out)@ =~= old(out)@ + enc_dist_items(items));
        }
    }
}

fn push_kugel_items(out: &mut String, v: &Vec<KugelAttempt>, from: usize)
    requires
        from <= v@.len(),
    ensures
        final(out)@ == old(out)@ + enc_dist_items(
            kugel_view(v@).subrange(from as int, v@.len() as int),
        ),
    decreases v@.len() - from,
{
    let ghost items = kugel_view(v@).subrange(from as int, v@.len() as int);
    if from >= v.len() {
        proof {
            assert(items =~= Seq::<int>::empty());
            assert(final(out)@ =~= old(out)@ + enc_dist_items(items));
        }
        return ;
    }
    push_dist(out, v[from].distance);
    proof {
        assert(items[0] == v@[from as int].distance as int);
    }
    if from + 1 < v.len() {
        out.append(",");
        push_kugel_items(out, v, from + 1);
        proof {
            assert(items.drop_first() =~= kugel_view(v@).subrange(
                from as int + 1,
                v@.len() as int,
            ));
            assert(final(out)@ =~= old(out)@ + enc_dist_items(items));
        }
    } else {
        proof {
            assert(items.len() == 1);
            assert(final(out)@ =~= old(out)@ + enc_dist_items(items));
        }
    }
}

fn push_opt_jump(out: &mut String, o: &Option<Vec<JumpAttempt>>)
    ensures
        final(out)@ == old(out)@ + enc_opt_dist(
            match *o {
                Some(v) => Some(jump_view(v@)),
                None => None,
            },
        ),
{
    match o {
        None => out.append("null"),
        Some(v) => {
            out.append("[");
            push_jump_items(out, v, 0);
            out.append("]");
            proof {
                assert(jump_view(v@).subrange(0, v@.len() as int) =~= jump_view(v@));
                assert(final(out)@ =~= old(out)@ + enc_opt_dist(Some(jump_view(v@))));
            }
        },
    }
}

fn push_opt_kugel(out: &mut String, o: &Option<Vec<KugelAttempt>>)
    ensures
        final(out)@ == old(out)@ + enc_opt_dist(
            match *o {
                Some(v) => Some(kugel_view(v@)),
                None => None,
            },
        ),
{
    match o {
        None => out.append("null"),
        Some(v) => {
            out.append("[");
            push_kugel_items(out, v, 0);
            out.append("]");
            proof {
                assert(kugel_view(v@).subrange(0, v@.len() as int) =~= kugel_view(v@));
                assert(final(out)@ =~= old(out)@ + enc_opt_dist(Some(kugel_view(v@))));
            }
        },
    }
}

fn push_competitor_head(out: &mut String, c: &Competitor)
    ensures
        final(out)@ == old(out)@ + enc_competitor_head(c@),
{
    out.append("{\"id\":");
    push_string(out, c.id.as_str());
    out.append(",\"name\":");
    push_string(out, c.name.as_str());
    out.append(",\"competition_type\":");
    match c.competition_type {
        CompetitionType::Stab => out.append("\"Stab\""),
        CompetitionType::Wurf => out.append("\"Wurf\""),
    }
    out.append(",\"pole_vault_attempts\":");
    push_opt_pva(out, &c.pole_vault_attempts);
    out.append(",\"climbing_time\":");
    push_opt_num(out, &c.climbing_time);
    out.append(",\"sprint_time\":");
    push_opt_num(out, &c.sprint_time);
    proof {
        reveal(enc_competitor_head);
        assert(final(out)@ =~= old(out)@ + enc_competitor_head(c@));
    }
}

fn push_competitor_tail(out: &mut String, c: &Competitor)
    ensures
        final(out)@ == old(out)@ + enc_competitor_tail(c@),
{
    out.append(",\"sprint_5jump\":");
    push_opt_jump(out, &c.sprint_5jump);
    out.append(",\"kugel_distance\":");
    push_opt_num(out, &c.kugel_distance);
    out.append(",\"wsprint_time\":");
    push_opt_num(out, &c.wsprint_time);
    out.append(",\"kugel_attempts\":");
    push_opt_kugel(out, &c.kugel_attempts);
    out.append("}");
    proof {
        reveal(enc_competitor_tail);
        assert(final(out)@ =~= old(out)@ + enc_competitor_tail(c@));
    }
}

fn push_competitor(out: &mut String, c: &Competitor)
    ensures
        final(out)@ == old(out)@ + enc_competitor(c@),
{
    push_competitor_head(out, c);
    push_competitor_tail(out, c);
    proof {
        assert(final(out)@ =~= old(out)@ + enc_competitor(c@));
    }
}

fn push_comp_items(out: &mut String, v: &Vec<Competitor>, from: usize)
    requires
        from <= v@.len(),
    ensures
        final(out)@ == old(out)@ + enc_comp_items(
            roster_view(v@).subrange(from as int, v@.len() as int),
        ),
    decreases v@.len() - from,
{
    let ghost items = roster_view(v@).subrange(from as int, v@.len() as int);
    if from >= v.len() {
        proof {
            assert(items =~= Seq::<CompetitorView>::empty());
            assert(final(out)@ =~= old(out)@ + enc_comp_items(items));
        }
        return ;
    }
    push_competitor(out, &v[from]);
    proof {
        assert(items[0] == v@[from as int]@);
    }
    if from + 1 < v.len() {
        out.append(",");
        push_comp_items(out, v, from + 1);
        proof {
            assert(items.drop_first() =~= roster_view(v@).subrange(from as int + 1, v@.len() as int));
            assert(final(out)@ =~= old(out)@ + enc_comp_items(items));
        }
    } else {
        proof {
            assert(items.len() == 1);
            assert(final(out)@ =~= old(out)@ + enc_comp_items(items));
        }
    }
}

/// Renders the whole competition document as JSON text.
pub fn encode(c: &Competition) -> (r: String)
    ensures
        r@ == enc_competition(c@),
{
    let mut out = String::new();
    out.append("{\"name\":");
    push_string(&mut out, c.name.as_str());
    out.append(",\"competitors\":[");
    push_comp_items(&mut out, &c.competitors, 0);
    out.append("]}");
    proof {
        assert(roster_view(c.competitors@).subrange(0, c.competitors@.len() as int)
            =~= roster_view(c.competitors@));
        assert(out@ =~= enc_competition(c@));
    }
    out
}

// ---------------------------------------------------------------------
// Round-trip: parsing what the encoder produced yields the original
// value.  Each lemma assumes the encoding of a value stands at index
// `i` and concludes that the parser consumes exactly it.
// ---------------------------------------------------------------------
/// Splits a matched concatenation into its two parts.
proof fn lemma_split(s: Seq<char>, i: int, a: Seq<char>, b: Seq<char>)
    requires
        0 <= i,
        i + a.len() + b.len() <= s.len(),
        s.subrange(i, i + a.len() + b.len()) == a + b,
    ensures
        s.subrange(i, i + a.len()) == a,
        s.subrange(i + a.len(), i + a.len() + b.len()) == b,
{
    let t = s.subrange(i, i + a.len() + b.len());
    assert forall|k: int| 0 <= k < a.len() implies s.subrange(i, i + a.len())[k] == a[k] by {
        assert(t[k] == s[i + k]);
        assert(t[k] == (a + b)[k]);
    }
    assert(s.subrange(i, i + a.len()) =~= a);
    assert forall|k: int|
        0 <= k < b.len() implies s.subrange(i + a.len(), i + a.len() + b.len())[k] == b[k] by {
        assert(t[a.len() + k] == s[i + a.len() + k]);
        assert(t[a.len() + k] == (a + b)[a.len() + k]);
    }
    assert(s.subrange(i + a.len(), i + a.len() + b.len()) =~= b);
}

/// A literal fails to match where one of its characters differs.
proof fn lemma_parse_lit_fail_at(s: Seq<char>, i: int, lit: Seq<char>, k: int)
    requires
        0 <= i,
        0 <= k < lit.len(),
        i + k < s.len(),
        s[i + k] != lit[k],
    ensures
        parse_lit(s, i, lit) is None,
{
    if i + lit.len() <= s.len() && s.subrange(i, i + lit.len()) == lit {
        assert(s.subrange(i, i + lit.len())[k] == s[i + k]);
    }
}

proof fn lemma_parse_str_chars_enc(s: Seq<char>, i: int, t: Seq<char>)
    requires
        0 <= i,
        i + esc(t).len() + 1 <= s.len(),
        s.subrange(i, i + esc(t).len() + 1) == esc(t) + seq!['"'],
    ensures
        parse_str_chars(s, i) == Some((t, i + esc(t).len() + 1)),
    decreases t.len(),
{
    let e = esc(t);
    if t.len() == 0 {
        assert(e =~= Seq::<char>::empty());
        assert(s.subrange(i, i + 1)[0] == s[i]);
        assert(s[i] == '"');
    } else {
        let ec = esc_char(t[0]);
        let rest = esc(t.drop_first());
        assert(e == ec + rest);
        assert(e + seq!['"'] =~= ec + (rest + seq!['"']));
        lemma_split(s, i, ec, rest + seq!['"']);
        if t[0] == '"' || t[0] == '\\' {
            assert(ec == seq!['\\', t[0]]);
            assert(s.subrange(i, i + 2)[0] == s[i]);
            assert(s.subrange(i, i + 2)[1] == s[i + 1]);
            assert(s[i] == '\\');
            assert(s[i + 1] == t[0]);
            lemma_parse_str_chars_enc(s, i + 2, t.drop_first());
            assert(seq![s[i + 1]] + t.drop_first() =~= t);
        } else {
            assert(ec == seq![t[0]]);
            assert(s.subrange(i, i + 1)[0] == s[i]);
            assert(s[i] == t[0]);
            lemma_parse_str_chars_enc(s, i + 1, t.drop_first());
            assert(seq![s[i]] + t.drop_first() =~= t);
        }
    }
}

proof fn lemma_parse_string_enc(s: Seq<char>, i: int, t: Seq<char>)
    requires
        0 <= i,
        i + enc_string(t).len() <= s.len(),
        s.subrange(i, i + enc_string(t).len()) == enc_string(t),
    ensures
        parse_string(s, i) == Some((t, i + enc_string(t).len())),
{
    assert(enc_string(t) =~= seq!['"'] + (esc(t) + seq!['"']));
    lemma_split(s, i, seq!['"'], esc(t) + seq!['"']);
    assert(s.subrange(i, i + 1)[0] == s[i]);
    assert(s[i] == '"');
    lemma_parse_str_chars_enc(s, i + 1, t);
}

proof fn lemma_digits_end_of(s: Seq<char>, i: int, ds: Seq<char>)
    requires
        0 <= i,
        i + ds.len() <= s.len(),
        s.subrange(i, i + ds.len()) == ds,
        forall|k: int| 0 <= k < ds.len() ==> is_digit(#[trigger] ds[k]),
        i + ds.len() == s.len() || !is_digit(s[i + ds.len()]),
    ensures
        digits_end(s, i) == i + ds.len(),
    decreases ds.len(),
{
    if ds.len() == 0 {
    } else {
        assert(s.subrange(i, i + ds.len())[0] == s[i]);
        assert(s[i] == ds[0]);
        assert forall|k: int|
            0 <= k < ds.len() - 1 implies s.subrange(i + 1, i + ds.len())[k] == ds.drop_first()[k]
        by {
            assert(s.subrange(i + 1, i + ds.len())[k] == s[i + 1 + k]);
            assert(s.subrange(i, i + ds.len())[1 + k] == s[i + 1 + k]);
        }
        assert(s.subrange(i + 1, i + ds.len()) =~= ds.drop_first());
        lemma_digits_end_of(s, i + 1, ds.drop_first());
    }
}

proof fn lemma_parse_u64_enc(s: Seq<char>, i: int, n: nat)
    requires
        n <= u64::MAX,
        0 <= i,
        i + dec_digits(n).len() <= s.len(),
        s.subrange(i, i + dec_digits(n).len()) == dec_digits(n),
        i + dec_digits(n).len() == s.len() || !is_digit(s[i + dec_digits(n).len()]),
    ensures
        parse_u64(s, i) == Some((n, i + dec_digits(n).len())),
{
    lemma_dec_digits_val(n);
    lemma_digits_end_of(s, i, dec_digits(n));
}

proof fn lemma_parse_i64_enc(s: Seq<char>, i: int, x: int)
    requires
        i64::MIN <= x <= i64::MAX,
        0 <= i,
        i + enc_i64(x).len() <= s.len(),
        s.subrange(i, i + enc_i64(x).len()) == enc_i64(x),
        i + enc_i64(x).len() == s.len() || !is_digit(s[i + enc_i64(x).len()]),
    ensures
        parse_i64(s, i) == Some((x, i + enc_i64(x).len())),
{
    lemma_dec_digits_val(abs_val(x));
    if x < 0 {
        assert(enc_i64(x) == seq!['-'] + dec_digits(abs_val(x)));
        lemma_split(s, i, seq!['-'], dec_digits(abs_val(x)));
        assert(s.subrange(i, i + 1)[0] == s[i]);
        assert(s[i] == '-');
        lemma_parse_u64_enc(s, i + 1, abs_val(x));
    } else {
        assert(s.subrange(i, i + enc_i64(x).len())[0] == s[i]);
        assert(s[i] == dec_digits(abs_val(x))[0]);
        assert(is_digit(s[i]));
        assert(s[i] != '-');
        lemma_parse_u64_enc(s, i, abs_val(x));
    }
}

proof fn lemma_parse_bool_enc(s: Seq<char>, i: int, b: bool)
    requires
        0 <= i,
        i + enc_bool(b).len() <= s.len(),
        s.subrange(i, i + enc_bool(b).len()) == enc_bool(b),
    ensures
        parse_bool(s, i) == Some((b, i + enc_bool(b).len())),
{
    reveal_strlit("true");
    reveal_strlit("false");
    if b {
    } else {
        assert(s.subrange(i, i + 5)[0] == s[i]);
        assert(s[i] == 'f');
        lemma_parse_lit_fail_at(s, i, "true"@, 0);
    }
}

proof fn lemma_parse_ctype_enc(s: Seq<char>, i: int, t: CompetitionType)
    requires
        0 <= i,
        i + enc_ctype(t).len() <= s.len(),
        s.subrange(i, i + enc_ctype(t).len()) == enc_ctype(t),
    ensures
        parse_ctype(s, i) == Some((t, i + enc_ctype(t).len())),
{
    reveal_strlit("\"Stab\"");
    reveal_strlit("\"Wurf\"");
    match t {
        CompetitionType::Stab => {
        },
        CompetitionType::Wurf => {
            assert(s.subrange(i, i + 6)[1] == s[i + 1]);
            assert(s[i + 1] == 'W');
            lemma_parse_lit_fail_at(s, i, "\"Stab\""@, 1);
        },
    }
}

proof fn lemma_parse_opt_num_enc(s: Seq<char>, i: int, o: Option<int>)
    requires
        (match o {
            Some(x) => i64::MIN <= x <= i64::MAX,
            None => true,
        }),
        0 <= i,
        i + enc_opt_num(o).len() <= s.len(),
        s.subrange(i, i + enc_opt_num(o).len()) == enc_opt_num(o),
        i + enc_opt_num(o).len() == s.len() || !is_digit(s[i + enc_opt_num(o).len()]),
    ensures
        parse_opt_num(s, i) == Some((o, i + enc_opt_num(o).len())),
{
    reveal_strlit("null");
    match o {
        None => {
        },
        Some(x) => {
            lemma_dec_digits_val(abs_val(x));
            assert(s.subrange(i, i + enc_i64(x).len())[0] == s[i]);
            if x < 0 {
                assert(enc_i64(x)[0] == '-');
            } else {
                assert(enc_i64(x)[0] == dec_digits(abs_val(x))[0]);
                assert(is_digit(enc_i64(x)[0]));
            }
            assert(s[i] != 'n');
            lemma_parse_lit_fail_at(s, i, "null"@, 0);
            lemma_parse_i64_enc(s, i, x);
        },
    }
}

proof fn lemma_parse_pva_enc(s: Seq<char>, i: int, a: (int, bool))
    requires
        i64::MIN <= a.0 <= i64::MAX,
        0 <= i,
        i + enc_pva(a).len() <= s.len(),
        s.subrange(i, i + enc_pva(a).len()) == enc_pva(a),
    ensures
        parse_pva(s, i) == Some((a, i + enc_pva(a).len())),
{
    reveal_strlit(",\"successful\":");
    let e1 = "{\"height\":"@;
    let e2 = enc_i64(a.0);
    let e3 = ",\"successful\":"@;
    let e4 = enc_bool(a.1);
    let e5 = "}"@;
    assert(enc_pva(a) =~= e1 + (e2 + (e3 + (e4 + e5))));
    lemma_split(s, i, e1, e2 + (e3 + (e4 + e5)));
    let j1 = i + e1.len();
    lemma_split(s, j1, e2, e3 + (e4 + e5));
    let j2 = j1 + e2.len();
    lemma_split(s, j2, e3, e4 + e5);
    let j3 = j2 + e3.len();
    lemma_split(s, j3, e4, e5);
    let j4 = j3 + e4.len();
    assert(s.subrange(j2, j2 + e3.len())[0] == s[j2]);
    assert(s[j2] == ',');
    lemma_parse_i64_enc(s, j1, a.0);
    lemma_parse_bool_enc(s, j3, a.1);
}

proof fn lemma_parse_dist_enc(s: Seq<char>, i: int, d: int)
    requires
        i64::MIN <= d <= i64::MAX,
        0 <= i,
        i + enc_dist(d).len() <= s.len(),
        s.subrange(i, i + enc_dist(d).len()) == enc_dist(d),
    ensures
        parse_dist(s, i) == Some((d, i + enc_dist(d).len())),
{
    reveal_strlit("}");
    let e1 = "{\"distance\":"@;
    let e2 = enc_i64(d);
    let e3 = "}"@;
    assert(enc_dist(d) =~= e1 + (e2 + e3));
    lemma_split(s, i, e1, e2 + e3);
    let j1 = i + e1.len();
    lemma_split(s, j1, e2, e3);
    let j2 = j1 + e2.len();
    assert(s.subrange(j2, j2 + e3.len())[0] == s[j2]);
    assert(s[j2] == '}');
    lemma_parse_i64_enc(s, j1, d);
}

proof fn lemma_parse_pva_items_enc(s: Seq<char>, i: int, items: Seq<(int, bool)>)
    requires
        items.len() >= 1,
        forall|k: int| 0 <= k < items.len() ==> i64::MIN <= (#[trigger] items[k]).0 <= i64::MAX,
        0 <= i,
        i + enc_pva_items(items).len() + 1 <= s.len(),
        s.subrange(i, i + enc_pva_items(items).len() + 1) == enc_pva_items(items) + seq![']'],
    ensures
        parse_pva_items(s, i) == Some((items, i + enc_pva_items(items).len() + 1)),
    decreases items.len(),
{
    reveal_strlit(",");
    reveal_strlit("]");
    reveal_strlit("{\"height\":");
    if items.len() == 1 {
        assert(enc_pva_items(items) == enc_pva(items[0]));
        lemma_split(s, i, enc_pva(items[0]), seq![']']);
        lemma_parse_pva_enc(s, i, items[0]);
        let j = i + enc_pva(items[0]).len();
        assert(s.subrange(j, j + 1)[0] == s[j]);
        assert(s[j] == ']');
        lemma_parse_lit_fail_at(s, j, ","@, 0);
        assert(s.subrange(j, j + 1) =~= "]"@);
        assert(seq![items[0]] =~= items);
    } else {
        let e0 = enc_pva(items[0]);
        let rest = enc_pva_items(items.drop_first());
        assert(enc_pva_items(items) == e0 + ","@ + rest);
        assert(enc_pva_items(items) + seq![']'] =~= e0 + (","@ + (rest + seq![']'])));
        lemma_split(s, i, e0, ","@ + (rest + seq![']']));
        lemma_parse_pva_enc(s, i, items[0]);
        let j = i + e0.len();
        lemma_split(s, j, ","@, rest + seq![']']);
        assert(e0.len() >= "{\"height\":"@.len());
        lemma_parse_pva_items_enc(s, j + 1, items.drop_first());
        assert(seq![items[0]] + items.drop_first() =~= items);
    }
}

proof fn lemma_parse_dist_items_enc(s: Seq<char>, i: int, items: Seq<int>)
    requires
        items.len() >= 1,
        forall|k: int| 0 <= k < items.len() ==> i64::MIN <= #[trigger] items[k] <= i64::MAX,
        0 <= i,
        i + enc_dist_items(items).len() + 1 <= s.len(),
        s.subrange(i, i + enc_dist_items(items).len() + 1) == enc_dist_items(items) + seq![']'],
    ensures
        parse_dist_items(s, i) == Some((items, i + enc_dist_items(items).len() + 1)),
    decreases items.len(),
{
    reveal_strlit(",");
    reveal_strlit("]");
    reveal_strlit("{\"distance\":");
    if items.len() == 1 {
        assert(enc_dist_items(items) == enc_dist(items[0]));
        lemma_split(s, i, enc_dist(items[0]), seq![']']);
        lemma_parse_dist_enc(s, i, items[0]);
        let j = i + enc_dist(items[0]).len();
        assert(s.subrange(j, j + 1)[0] == s[j]);
        assert(s[j] == ']');
        lemma_parse_lit_fail_at(s, j, ","@, 0);
        assert(s.subrange(j, j + 1) =~= "]"@);
        assert(seq![items[0]] =~= items);
    } else {
        let e0 = enc_dist(items[0]);
        let rest = enc_dist_items(items.drop_first());
        assert(enc_dist_items(items) == e0 + ","@ + rest);
        assert(enc_dist_items(items) + seq![']'] =~= e0 + (","@ + (rest + seq![']'])));
        lemma_split(s, i, e0, ","@ + (rest + seq![']']));
        lemma_parse_dist_enc(s, i, items[0]);
        let j = i + e0.len();
        lemma_split(s, j, ","@, rest + seq![']']);
        assert(e0.len() >= "{\"distance\":"@.len());
        lemma_parse_dist_items_enc(s, j + 1, items.drop_first());
        assert(seq![items[0]] + items.drop_first() =~= items);
    }
}

proof fn lemma_parse_opt_pva_enc(s: Seq<char>, i: int, o: Option<Seq<(int, bool)>>)
    requires
        (match o {
            Some(items) => forall|k: int|
                0 <= k < items.len() ==> i64::MIN <= (#[trigger] items[k]).0 <= i64::MAX,
            None => true,
        }),
        0 <= i,
        i + enc_opt_pva(o).len() <= s.len(),
        s.subrange(i, i + enc_opt_pva(o).len()) == enc_opt_pva(o),
    ensures
        parse_opt_pva(s, i) == Some((o, i + enc_opt_pva(o).len())),
{
    reveal_strlit("null");
    reveal_strlit("[");
    reveal_strlit("]");
    reveal_strlit("{\"height\":");
    match o {
        None => {
        },
        Some(items) => {
            let inner = enc_pva_items(items);
            assert(enc_opt_pva(o) == "["@ + inner + "]"@);
            assert(enc_opt_pva(o) =~= "["@ + (inner + "]"@));
            lemma_split(s, i, "["@, inner + "]"@);
            assert(s.subrange(i, i + 1)[0] == s[i]);
            assert(s[i] == '[');
            lemma_parse_lit_fail_at(s, i, "null"@, 0);
            let j = i + 1;
            assert(s.subrange(i, i + 1) =~= "["@);
            if items.len() == 0 {
                assert(inner =~= Seq::<char>::empty());
                assert(s.subrange(j, j + 1) =~= "]"@);
            } else {
                assert(inner + "]"@ =~= inner + seq![']']);
                lemma_parse_pva_items_enc(s, j, items);
                assert(inner.len() >= "{\"height\":"@.len());
                assert(s.subrange(j, j + inner.len())
                    =~= inner) by {
                    lemma_split(s, j, inner, seq![']']);
                }
                assert(s.subrange(j, j + 1)[0] == s[j]);
                assert(s[j] == inner[0]);
                assert(inner[0] == enc_pva(items[0])[0]);
                assert(enc_pva(items[0])[0] == '{');
                lemma_parse_lit_fail_at(s, j, "]"@, 0);
            }
        },
    }
}

proof fn lemma_parse_opt_dist_enc(s: Seq<char>, i: int, o: Option<Seq<int>>)
    requires
        (match o {
            Some(items) => forall|k: int|
                0 <= k < items.len() ==> i64::MIN <= #[trigger] items[k] <= i64::MAX,
            None => true,
        }),
        0 <= i,
        i + enc_opt_dist(o).len() <= s.len(),
        s.subrange(i, i + enc_opt_dist(o).len()) == enc_opt_dist(o),
    ensures
        parse_opt_dist(s, i) == Some((o, i + enc_opt_dist(o).len())),
{
    reveal_strlit("null");
    reveal_strlit("[");
    reveal_strlit("]");
    reveal_strlit("{\"distance\":");
    match o {
        None => {
        },
        Some(items) => {
            let inner = enc_dist_items(items);
            assert(enc_opt_dist(o) == "["@ + inner + "]"@);
            assert(enc_opt_dist(o) =~= "["@ + (inner + "]"@));
            lemma_split(s, i, "["@, inner + "]"@);
            assert(s.subrange(i, i + 1)[0] == s[i]);
            assert(s[i] == '[');
            lemma_parse_lit_fail_at(s, i, "null"@, 0);
            let j = i + 1;
            assert(s.subrange(i, i + 1) =~= "["@);
            if items.len() == 0 {
                assert(inner =~= Seq::<char>::empty());
                assert(s.subrange(j, j + 1) =~= "]"@);
            } else {
                assert(inner + "]"@ =~= inner + seq![']']);
                lemma_parse_dist_items_enc(s, j, items);
                assert(inner.len() >= "{\"distance\":"@.len());
                assert(s.subrange(j, j + inner.len())
                    =~= inner) by {
                    lemma_split(s, j, inner, seq![']']);
                }
                assert(s.subrange(j, j + 1)[0] == s[j]);
                assert(s[j] == inner[0]);
                assert(inner[0] == enc_dist(items[0])[0]);
                assert(enc_dist(items[0])[0] == '{');
                lemma_parse_lit_fail_at(s, j, "]"@, 0);
            }
        },
    }
}

#[verifier::rlimit(100)]
proof fn lemma_parse_competitor_rest_enc(s: Seq<char>, i: int, c: CompetitorView)
    requires
        crate::model::wf_competitor(c),
        0 <= i,
        i + enc_competitor_tail(c).len() <= s.len(),
        s.subrange(i, i + enc_competitor_tail(c).len()) == enc_competitor_tail(c),
    ensures
        parse_competitor_rest(
            s,
            i,
            c.id,
            c.name,
            c.competition_type,
            c.pole_vault_attempts,
            c.climbing_time,
            c.sprint_time,
        ) == Some((c, i + enc_competitor_tail(c).len())),
{
    reveal(enc_competitor_tail);
    reveal(parse_competitor_rest);
    reveal_strlit(",\"kugel_distance\":");
    reveal_strlit(",\"wsprint_time\":");
    reveal_strlit(",\"kugel_attempts\":");
    let t1 = ",\"sprint_5jump\":"@;
    let t2 = enc_opt_dist(c.sprint_5jump);
    let t3 = ",\"kugel_distance\":"@;
    let t4 = enc_opt_num(c.kugel_distance);
    let t5 = ",\"wsprint_time\":"@;
    let t6 = enc_opt_num(c.wsprint_time);
    let t7 = ",\"kugel_attempts\":"@;
    let t8 = enc_opt_dist(c.kugel_attempts);
    let t9 = "}"@;
    assert(enc_competitor_tail(c) =~= t1 + (t2 + (t3 + (t4 + (t5 + (t6 + (t7 + (t8 + t9))))))));
    lemma_split(s, i, t1, t2 + (t3 + (t4 + (t5 + (t6 + (t7 + (t8 + t9)))))));
    let j1 = i + t1.len();
    lemma_split(s, j1, t2, t3 + (t4 + (t5 + (t6 + (t7 + (t8 + t9))))));
    let j2 = j1 + t2.len();
    lemma_split(s, j2, t3, t4 + (t5 + (t6 + (t7 + (t8 + t9)))));
    let j3 = j2 + t3.len();
    lemma_split(s, j3, t4, t5 + (t6 + (t7 + (t8 + t9))));
    let j4 = j3 + t4.len();
    lemma_split(s, j4, t5, t6 + (t7 + (t8 + t9)));
    let j5 = j4 + t5.len();
    lemma_split(s, j5, t6, t7 + (t8 + t9));
    let j6 = j5 + t6.len();
    lemma_split(s, j6, t7, t8 + t9);
    let j7 = j6 + t7.len();
    lemma_split(s, j7, t8, t9);
    let j8 = j7 + t8.len();
    lemma_parse_opt_dist_enc(s, j1, c.sprint_5jump);
    assert(s.subrange(j4, j4 + t5.len())[0] == s[j4]);
    assert(s[j4] == ',');
    lemma_parse_opt_num_enc(s, j3, c.kugel_distance);
    assert(s.subrange(j6, j6 + t7.len())[0] == s[j6]);
    assert(s[j6] == ',');
    lemma_parse_opt_num_enc(s, j5, c.wsprint_time);
    lemma_parse_opt_dist_enc(s, j7, c.kugel_attempts);
}

#[verifier::rlimit(100)]
proof fn lemma_parse_competitor_head_enc(s: Seq<char>, i: int, c: CompetitorView)
    requires
        crate::model::wf_competitor(c),
        0 <= i,
        i + enc_competitor_head(c).len() < s.len(),
        s.subrange(i, i + enc_competitor_head(c).len()) == enc_competitor_head(c),
        s[i + enc_competitor_head(c).len()] == ',',
    ensures
        ({
            let j1 = i + "{\"id\":"@.len();
            let j2 = j1 + enc_string(c.id).len();
            let j3 = j2 + ",\"name\":"@.len();
            let j4 = j3 + enc_string(c.name).len();
            let j5 = j4 + ",\"competition_type\":"@.len();
            let j6 = j5 + enc_ctype(c.competition_type).len();
            let j7 = j6 + ",\"pole_vault_attempts\":"@.len();
            let j8 = j7 + enc_opt_pva(c.pole_vault_attempts).len();
            let j9 = j8 + ",\"climbing_time\":"@.len();
            let j10 = j9 + enc_opt_num(c.climbing_time).len();
            let j11 = j10 + ",\"sprint_time\":"@.len();
            let j12 = j11 + enc_opt_num(c.sprint_time).len();
            &&& parse_lit(s, i, "{\"id\":"@) == Some(j1)
            &&& parse_string(s, j1) == Some((c.id, j2))
            &&& parse_lit(s, j2, ",\"name\":"@) == Some(j3)
            &&& parse_string(s, j3) == Some((c.name, j4))
            &&& parse_lit(s, j4, ",\"competition_type\":"@) == Some(j5)
            &&& parse_ctype(s, j5) == Some((c.competition_type, j6))
            &&& parse_lit(s, j6, ",\"pole_vault_attempts\":"@) == Some(j7)
            &&& parse_opt_pva(s, j7) == Some((c.pole_vault_attempts, j8))
            &&& parse_lit(s, j8, ",\"climbing_time\":"@) == Some(j9)
            &&& parse_opt_num(s, j9) == Some((c.climbing_time, j10))
            &&& parse_lit(s, j10, ",\"sprint_time\":"@) == Some(j11)
            &&& parse_opt_num(s, j11) == Some((c.sprint_time, j12))
            &&& j12 == i + enc_competitor_head(c).len()
        }),
{
    reveal(enc_competitor_head);
    reveal_strlit(",\"name\":");
    reveal_strlit(",\"competition_type\":");
    reveal_strlit(",\"sprint_time\":");
    let h1 = "{\"id\":"@;
    let h2 = enc_string(c.id);
    let h3 = ",\"name\":"@;
    let h4 = enc_string(c.name);
    let h5 = ",\"competition_type\":"@;
    let h6 = enc_ctype(c.competition_type);
    let h7 = ",\"pole_vault_attempts\":"@;
    let h8 = enc_opt_pva(c.pole_vault_attempts);
    let h9 = ",\"climbing_time\":"@;
    let h10 = enc_opt_num(c.climbing_time);
    let h11 = ",\"sprint_time\":"@;
    let h12 = enc_opt_num(c.sprint_time);
    let p11 = h1 + h2 + h3 + h4 + h5 + h6 + h7 + h8 + h9 + h10 + h11;
    let p10 = h1 + h2 + h3 + h4 + h5 + h6 + h7 + h8 + h9 + h10;
    let p9 = h1 + h2 + h3 + h4 + h5 + h6 + h7 + h8 + h9;
    let p8 = h1 + h2 + h3 + h4 + h5 + h6 + h7 + h8;
    let p7 = h1 + h2 + h3 + h4 + h5 + h6 + h7;
    let p6 = h1 + h2 + h3 + h4 + h5 + h6;
    let p5 = h1 + h2 + h3 + h4 + h5;
    let p4 = h1 + h2 + h3 + h4;
    let p3 = h1 + h2 + h3;
    let p2 = h1 + h2;
    lemma_split(s, i, p11, h12);
    lemma_split(s, i, p10, h11);
    lemma_split(s, i, p9, h10);
    lemma_split(s, i, p8, h9);
    lemma_split(s, i, p7, h8);
    lemma_split(s, i, p6, h7);
    lemma_split(s, i, p5, h6);
    lemma_split(s, i, p4, h5);
    lemma_split(s, i, p3, h4);
    lemma_split(s, i, p2, h3);
    lemma_split(s, i, h1, h2);
    let j1 = i + h1.len();
    let j3 = j1 + h2.len() + h3.len();
    let j5 = j3 + h4.len() + h5.len();
    let j7 = j5 + h6.len() + h7.len();
    let j9 = j7 + h8.len() + h9.len();
    let j10 = j9 + h10.len();
    let j11 = j10 + h11.len();
    lemma_parse_string_enc(s, j1, c.id);
    lemma_parse_string_enc(s, j3, c.name);
    lemma_parse_ctype_enc(s, j5, c.competition_type);
    lemma_parse_opt_pva_enc(s, j7, c.pole_vault_attempts);
    assert(s.subrange(j10, j10 + h11.len())[0] == s[j10]);
    assert(s[j10] == ',');
    lemma_parse_opt_num_enc(s, j9, c.climbing_time);
    lemma_parse_opt_num_enc(s, j11, c.sprint_time);
}

#[verifier::rlimit(100)]
proof fn lemma_parse_competitor_enc(s: Seq<char>, i: int, c: CompetitorView)
    requires
        crate::model::wf_competitor(c),
        0 <= i,
        i + enc_competitor(c).len() <= s.len(),
        s.subrange(i, i + enc_competitor(c).len()) == enc_competitor(c),
    ensures
        parse_competitor(s, i) == Some((c, i + enc_competitor(c).len())),
{
    reveal(parse_competitor);
    reveal_strlit(",\"sprint_5jump\":");
    reveal_strlit("}");
    let head = enc_competitor_head(c);
    let tail = enc_competitor_tail(c);
    lemma_split(s, i, head, tail);
    let m = i + head.len();
    assert(tail.len() >= 1 && tail[0] == ',') by {
        reveal(enc_competitor_tail);
    }
    assert(s.subrange(m, m + tail.len())[0] == s[m]);
    assert(s[m] == ',');
    lemma_parse_competitor_head_enc(s, i, c);
    lemma_parse_competitor_rest_enc(s, m, c);
}

/// Extends a matched range by one following character.
proof fn lemma_join(s: Seq<char>, i: int, a: Seq<char>, c: char)
    requires
        0 <= i,
        i + a.len() < s.len(),
        s.subrange(i, i + a.len()) == a,
        s[i + a.len()] == c,
    ensures
        s.subrange(i, i + a.len() + 1) == a + seq![c],
{
    assert forall|k: int|
        0 <= k < a.len() + 1 implies s.subrange(i, i + a.len() + 1)[k] == (a + seq![c])[k] by {
        if k < a.len() {
            assert(s.subrange(i, i + a.len())[k] == s[i + k]);
        }
    }
    assert(s.subrange(i, i + a.len() + 1) =~= a + seq![c]);
}

#[verifier::rlimit(100)]
proof fn lemma_parse_comp_items_enc(s: Seq<char>, i: int, items: Seq<CompetitorView>)
    requires
        items.len() >= 1,
        forall|k: int|
            0 <= k < items.len() ==> crate::model::wf_competitor(#[trigger] items[k]),
        0 <= i,
        i + enc_comp_items(items).len() + 1 <= s.len(),
        s.subrange(i, i + enc_comp_items(items).len() + 1) == enc_comp_items(items) + seq![']'],
    ensures
        parse_comp_items(s, i) == Some((items, i + enc_comp_items(items).len() + 1)),
    decreases items.len(),
{
    reveal_strlit(",");
    reveal_strlit("]");
    reveal_strlit("{\"id\":");
    if items.len() == 1 {
        assert(enc_comp_items(items) == enc_competitor(items[0]));
        lemma_split(s, i, enc_competitor(items[0]), seq![']']);
        lemma_parse_competitor_enc(s, i, items[0]);
        let j = i + enc_competitor(items[0]).len();
        assert(enc_competitor(items[0]).len() >= 1) by {
            reveal(enc_competitor_head);
            assert(enc_competitor_head(items[0]).len() >= "{\"id\":"@.len());
        }
        assert(s.subrange(j, j + 1)[0] == s[j]);
        assert(s[j] == ']');
        lemma_parse_lit_fail_at(s, j, ","@, 0);
        assert(s.subrange(j, j + 1) =~= "]"@);
        assert(seq![items[0]] =~= items);
    } else {
        let e0 = enc_competitor(items[0]);
        let rest = enc_comp_items(items.drop_first());
        let a = e0 + ","@;
        assert(enc_comp_items(items) == a + rest);
        lemma_split(s, i, a + rest, seq![']']);
        lemma_split(s, i, a, rest);
        lemma_split(s, i, e0, ","@);
        let j = i + e0.len();
        let m = i + a.len() + rest.len();
        assert(s.subrange(m, m + 1)[0] == s[m]);
        assert(s[m] == ']');
        lemma_join(s, j + 1, rest, ']');
        lemma_parse_competitor_enc(s, i, items[0]);
        assert(e0.len() >= "{\"id\":"@.len()) by {
            reveal(enc_competitor_head);
            assert(enc_competitor_head(items[0]).len() >= "{\"id\":"@.len());
        }
        lemma_parse_comp_items_enc(s, j + 1, items.drop_first());
        assert(seq![items[0]] + items.drop_first() =~= items);
    }
}

#[verifier::rlimit(100)]
proof fn lemma_parse_competition_enc(s: Seq<char>, i: int, c: CompetitionView)
    requires
        crate::model::wf_competition(c),
        0 <= i,
        i + enc_competition(c).len() <= s.len(),
        s.subrange(i, i + enc_competition(c).len()) == enc_competition(c),
    ensures
        parse_competition(s, i) == Some((c, i + enc_competition(c).len())),
{
    reveal_strlit(",\"competitors\":[");
    reveal_strlit("]}");
    reveal_strlit("}");
    reveal_strlit("{\"id\":");
    let g1 = "{\"name\":"@;
    let g2 = enc_string(c.name);
    let g3 = ",\"competitors\":["@;
    let g4 = enc_comp_items(c.competitors);
    let g5 = "]}"@;
    assert(enc_competition(c) =~= g1 + (g2 + (g3 + (g4 + g5))));
    lemma_split(s, i, g1, g2 + (g3 + (g4 + g5)));
    let j1 = i + g1.len();
    lemma_split(s, j1, g2, g3 + (g4 + g5));
    let j2 = j1 + g2.len();
    lemma_split(s, j2, g3, g4 + g5);
    let j3 = j2 + g3.len();
    assert(s.subrange(j2, j2 + g3.len())[0] == s[j2]);
    assert(s[j2] == ',');
    lemma_parse_string_enc(s, j1, c.name);
    if c.competitors.len() == 0 {
        assert(g4 =~= Seq::<char>::empty());
        assert(s.subrange(j3, j3 + 2) =~= "]}"@) by {
            lemma_split(s, j3, g4, g5);
        }
        assert((CompetitionView { name: c.name, competitors: Seq::empty() }) =~= c);
    } else {
        assert(g4 + g5 =~= (g4 + seq![']']) + seq!['}']);
        lemma_split(s, j3, g4 + seq![']'], seq!['}']);
        let j4 = j3 + g4.len() + 1;
        assert(s.subrange(j3, j3 + g4.len() + 1) == g4 + seq![']']);
        lemma_parse_comp_items_enc(s, j3, c.competitors);
        assert(s.subrange(j3, j3 + g4.len() + 1)[0] == s[j3]);
        assert(enc_competitor(c.competitors[0]).len() >= 1 && enc_competitor(
            c.competitors[0],
        )[0] == '{') by {
            reveal(enc_competitor_head);
            assert(enc_competitor_head(c.competitors[0]).len() >= "{\"id\":"@.len());
            assert(enc_competitor(c.competitors[0])[0] == "{\"id\":"@[0]);
        }
        assert(g4[0] == enc_competitor(c.competitors[0])[0]);
        assert(s[j3] == g4[0]);
        assert(s[j3] == '{');
        lemma_parse_lit_fail_at(s, j3, "]}"@, 0);
        assert(s.subrange(j4, j4 + 1)[0] == s[j4]);
        assert(s[j4] == '}');
        assert(s.subrange(j4, j4 + 1) =~= "}"@);
        assert((CompetitionView { name: c.name, competitors: c.competitors }) =~= c);
    }
}

/// Law: decoding an encoded document reproduces the competition.  For
/// every well-formed competition value `c`, the document `encode`
/// produces for `c` is accepted by `decode` and yields `c` again.
pub proof fn lemma_round_trip(c: CompetitionView)
    requires
        crate::model::wf_competition(c),
    ensures
        spec_decode(enc_competition(c)) == Some(c),
{
    let s = enc_competition(c);
    assert(s.subrange(0, s.len() as int) =~= s);
    lemma_parse_competition_enc(s, 0, c);
}

// ---------------------------------------------------------------------
// Executable parser.  Each function mirrors its spec-level counterpart
// — the termination guards of the list parsers included, so the two
// stay in step — and is proved to return exactly what that function
// says.
// ---------------------------------------------------------------------
fn is_digit_char(c: char) -> (r: bool)
    ensures
        r == is_digit(c),
{
    let u = c as u32;
    48 <= u && u <= 57
}

fn digit_value(c: char) -> (r: u64)
    requires
        is_digit(c),
    ensures
        r as nat == digit_val(c),
        r <= 9,
{
    let u = c as u32;
    ((u - 48) as u64)
}

/// The characters of a string, in order.
fn str_to_chars(s: &str) -> (r: Vec<char>)
    ensures
        r@ == s@,
{
    let n = s.unicode_len();
    let mut r: Vec<char> = Vec::new();
    let mut i: usize = 0;
    while i < n
        invariant
            n == s@.len(),
            0 <= i <= n,
            r@ == s@.subrange(0, i as int),
        decreases n - i,
    {
        let c = s.get_char(i);
        r.push(c);
        proof {
            assert(r@ =~= s@.subrange(0, i as int + 1));
        }
        i += 1;
    }
    proof {
        assert(r@ =~= s@);
    }
    r
}

/// Matches the literal `lit` at position `i`.
fn match_lit(s: &Vec<char>, i: usize, lit: &str) -> (r: Option<usize>)
    ensures
        (match r {
            Some(j) => parse_lit(s@, i as int, lit@) == Some(j as int),
            None => parse_lit(s@, i as int, lit@) is None,
        }),
{
    let n = lit.unicode_len();
    if i > s.len() || n > s.len() - i {
        return None;
    }
    let mut k: usize = 0;
    while k < n
        invariant
            n == lit@.len(),
            0 <= k <= n,
            i + n <= s@.len(),
            s@.len() <= usize::MAX,
            forall|j: int| 0 <= j < k ==> s@[i + j] == lit@[j],
        decreases n - k,
    {
        if s[i + k] != lit.get_char(k) {
            proof {
                if i as int + n <= s@.len() && s@.subrange(i as int, i as int + n) == lit@ {
                    assert(s@.subrange(i as int, i as int + n)[k as int] == s@[i + k]);
                }
            }
            return None;
        }
        k += 1;
    }
    proof {
        assert(s@.subrange(i as int, i as int + n) =~= lit@);
    }
    Some(i + n)
}

/// Parses a string body after the opening quote, up to and including
/// the closing quote.
fn p_str_chars(s: &Vec<char>, i: usize) -> (r: Option<(String, usize)>)
    ensures
        (match r {
            Some((t, j)) => parse_str_chars(s@, i as int) == Some((t@, j as int)),
            None => parse_str_chars(s@, i as int) is None,
        }),
    decreases s@.len() - i,
{
    if i >= s.len() {
        return None;
    }
    let c = s[i];
    if c == '"' {
        let t = String::new();
        proof {
            assert(t@ =~= Seq::<char>::empty());
        }
        return Some((t, i + 1));
    }
    if c == '\\' {
        if i + 1 < s.len() && (s[i + 1] == '"' || s[i + 1] == '\\') {
            match p_str_chars(s, i + 2) {
                Some((t, j)) => {
                    let mut out = String::new();
                    push_char(&mut out, s[i + 1]);
                    out.append(t.as_str());
                    proof {
                        assert(out@ =~= seq![s@[i as int + 1]] + t@);
                    }
                    Some((out, j))
                },
                None => None,
            }
        } else {
            None
        }
    } else {
        match p_str_chars(s, i + 1) {
            Some((t, j)) => {
                let mut out = String::new();
                push_char(&mut out, c);
                out.append(t.as_str());
                proof {
                    assert(out@ =~= seq![s@[i as int]] + t@);
                }
                Some((out, j))
            },
            None => None,
        }
    }
}

/// Parses a quoted string.
fn p_string(s: &Vec<char>, i: usize) -> (r: Option<(String, usize)>)
    ensures
        (match r {
            Some((t, j)) => parse_string(s@, i as int) == Some((t@, j as int)),
            None => parse_string(s@, i as int) is None,
        }),
{
    if i < s.len() && s[i] == '"' {
        p_str_chars(s, i + 1)
    } else {
        None
    }
}

/// Parses a nonempty digit run as a `u64`.
fn p_u64(s: &Vec<char>, i: usize) -> (r: Option<(u64, usize)>)
    ensures
        (match r {
            Some((v, j)) => parse_u64(s@, i as int) == Some((v as nat, j as int)),
            None => parse_u64(s@, i as int) is None,
        }),
{
    if i >= s.len() {
        return None;
    }
    let mut e: usize = i;
    while e < s.len() && is_digit_char(s[e])
        invariant
            i <= e <= s@.len(),
            digits_end(s@, i as int) == digits_end(s@, e as int),
            forall|k: int| i <= k < e ==> is_digit(s@[k]),
        decreases s@.len() - e,
    {
        proof {
            assert(digits_end(s@, e as int) == digits_end(s@, e as int + 1));
        }
        e += 1;
    }
    proof {
        assert(digits_end(s@, e as int) == e as int);
    }
    if e == i {
        return None;
    }
    let ghost ds = s@.subrange(i as int, e as int);
    let mut v: u64 = 0;
    let mut k: usize = i;
    while k < e
        invariant
            i <= k <= e <= s@.len(),
            i < e,
            digits_end(s@, i as int) == e as int,
            forall|m: int| i <= m < e ==> is_digit(s@[m]),
            ds == s@.subrange(i as int, e as int),
            v as nat == digits_val(s@.subrange(i as int, k as int)),
        decreases e - k,
    {
        let d: u64 = digit_value(s[k]);
        proof {
            assert(s@.subrange(i as int, k as int + 1).drop_last() =~= s@.subrange(
                i as int,
                k as int,
            ));
            assert(s@.subrange(i as int, k as int + 1).last() == s@[k as int]);
            assert(digits_val(s@.subrange(i as int, k as int + 1)) == (v as nat) * 10 + d);
        }
        if v > (u64::MAX - d) / 10 {
            proof {
                let pre = s@.subrange(i as int, k as int + 1);
                assert((v as nat) * 10 + d > u64::MAX) by (nonlinear_arith)
                    requires
                        v > (u64::MAX - d) / 10,
                        d <= 9,
                        v <= u64::MAX,
                ;
                lemma_digits_val_prefix(pre, s@.subrange(k as int + 1, e as int));
                assert(pre + s@.subrange(k as int + 1, e as int) =~= ds);
                assert(digits_val(ds) > u64::MAX);
            }
            return None;
        }
        proof {
            assert((v as nat) * 10 + d <= u64::MAX) by (nonlinear_arith)
                requires
                    v <= (u64::MAX - d) / 10,
                    d <= 9,
            ;
        }
        v = v * 10 + d;
        k += 1;
    }
    Some((v, e))
}

/// Parses a decimal integer in the value range of `i64`.
fn p_i64(s: &Vec<char>, i: usize) -> (r: Option<(i64, usize)>)
    ensures
        (match r {
            Some((x, j)) => parse_i64(s@, i as int) == Some((x as int, j as int)),
            None => parse_i64(s@, i as int) is None,
        }),
{
    if i < s.len() && s[i] == '-' {
        match p_u64(s, i + 1) {
            Some((m, j)) => {
                if m <= 9223372036854775808u64 {
                    let x: i64 = if m == 9223372036854775808u64 {
                        i64::MIN
                    } else {
                        -(m as i64)
                    };
                    proof {
                        assert(x as int == -(m as int));
                    }
                    Some((x, j))
                } else {
                    None
                }
            },
            None => None,
        }
    } else {
        match p_u64(s, i) {
            Some((m, j)) => {
                if m <= 9223372036854775807u64 {
                    Some(((m as i64), j))
                } else {
                    None
                }
            },
            None => None,
        }
    }
}

fn p_bool(s: &Vec<char>, i: usize) -> (r: Option<(bool, usize)>)
    ensures
        (match r {
            Some((b, j)) => parse_bool(s@, i as int) == Some((b, j as int)),
            None => parse_bool(s@, i as int) is None,
        }),
{
    match match_lit(s, i, "true") {
        Some(j) => Some((true, j)),
        None => match match_lit(s, i, "false") {
            Some(j) => Some((false, j)),
            None => None,
        },
    }
}

fn p_ctype(s: &Vec<char>, i: usize) -> (r: Option<(CompetitionType, usize)>)
    ensures
        (match r {
            Some((t, j)) => parse_ctype(s@, i as int) == Some((t, j as int)),
            None => parse_ctype(s@, i as int) is None,
        }),
{
    match match_lit(s, i, "\"Stab\"") {
        Some(j) => Some((CompetitionType::Stab, j)),
        None => match match_lit(s, i, "\"Wurf\"") {
            Some(j) => Some((CompetitionType::Wurf, j)),
            None => None,
        },
    }
}

fn p_opt_num(s: &Vec<char>, i: usize) -> (r: Option<(Option<i64>, usize)>)
    ensures
        (match r {
            Some((o, j)) => parse_opt_num(s@, i as int) == Some((opt_int_view(o), j as int)),
            None => parse_opt_num(s@, i as int) is None,
        }),
{
    match match_lit(s, i, "null") {
        Some(j) => Some((None, j)),
        None => match p_i64(s, i) {
            Some((x, j)) => Some((Some(x), j)),
            None => None,
        },
    }
}

fn p_pva(s: &Vec<char>, i: usize) -> (r: Option<(PoleVaultAttempt, usize)>)
    ensures
        (match r {
            Some((a, j)) => parse_pva(s@, i as int) == Some(
                ((a.height as int, a.successful), j as int),
            ),
            None => parse_pva(s@, i as int) is None,
        }),
{
    match match_lit(s, i, "{\"height\":") {
        Some(j1) => match p_i64(s, j1) {
            Some((h, j2)) => match match_lit(s, j2, ",\"successful\":") {
                Some(j3) => match p_bool(s, j3) {
                    Some((b, j4)) => match match_lit(s, j4, "}") {
                        Some(j5) => Some((PoleVaultAttempt { height: h, successful: b }, j5)),
                        None => None,
                    },
                    None => None,
                },
                None => None,
            },
            None => None,
        },
        None => None,
    }
}

fn p_pva_items(s: &Vec<char>, i: usize) -> (r: Option<(Vec<PoleVaultAttempt>, usize)>)
    ensures
        (match r {
            Some((v, j)) => parse_pva_items(s@, i as int) == Some((pole_vault_view(v@), j as int)),
            None => parse_pva_items(s@, i as int) is None,
        }),
    decreases s@.len() - i,
{
    match p_pva(s, i) {
        Some((a, j)) => {
            if !(i < j && j <= s.len()) {
                return None;
            }
            match match_lit(s, j, ",") {
                Some(j2) => {
                    if j2 <= j {
                        return None;
                    }
                    match p_pva_items(s, j2) {
                        Some((rest, j3)) => {
                            let mut out = rest;
                            out.insert(0, a);
                            proof {
                                assert(pole_vault_view(out@) =~= seq![
                                    (a.height as int, a.successful),
                                ] + pole_vault_view(out@.drop_first()));
                                assert(out@.drop_first() =~= out@.subrange(1, out@.len() as int));
                            }
                            Some((out, j3))
                        },
                        None => None,
                    }
                },
                None => match match_lit(s, j, "]") {
                    Some(j2) => {
                        let mut out: Vec<PoleVaultAttempt> = Vec::new();
                        out.push(a);
                        proof {
                            assert(pole_vault_view(out@) =~= seq![(a.height as int, a.successful)]);
                        }
                        Some((out, j2))
                    },
                    None => None,
                },
            }
        },
        None => None,
    }
}

fn p_opt_pva(s: &Vec<char>, i: usize) -> (r: Option<(Option<Vec<PoleVaultAttempt>>, usize)>)
    ensures
        (match r {
            Some((o, j)) => parse_opt_pva(s@, i as int) == Some(
                (
                    match o {
                        Some(v) => Some(pole_vault_view(v@)),
                        None => None,
                    },
                    j as int,
                ),
            ),
            None => parse_opt_pva(s@, i as int) is None,
        }),
{
    match match_lit(s, i, "null") {
        Some(j) => Some((None, j)),
        None => match match_lit(s, i, "[") {
            Some(j) => match match_lit(s, j, "]") {
                Some(j2) => {
                    let out: Vec<PoleVaultAttempt> = Vec::new();
                    proof {
                        assert(pole_vault_view(out@) =~= Seq::<(int, bool)>::empty());
                    }
                    Some((Some(out), j2))
                },
                None => match p_pva_items(s, j) {
                    Some((v, j2)) => Some((Some(v), j2)),
                    None => None,
                },
            },
            None => None,
        },
    }
}

fn p_dist(s: &Vec<char>, i: usize) -> (r: Option<(i64, usize)>)
    ensures
        (match r {
            Some((d, j)) => parse_dist(s@, i as int) == Some((d as int, j as int)),
            None => parse_dist(s@, i as int) is None,
        }),
{
    match match_lit(s, i, "{\"distance\":") {
        Some(j1) => match p_i64(s, j1) {
            Some((d, j2)) => match match_lit(s, j2, "}") {
                Some(j3) => Some((d, j3)),
                None => None,
            },
            None => None,
        },
        None => None,
    }
}

/// View of a parsed distance list.
pub open spec fn dists_view(v: Seq<i64>) -> Seq<int> {
    v.map_values(|d: i64| d as int)
}

fn p_dist_items(s: &Vec<char>, i: usize) -> (r: Option<(Vec<i64>, usize)>)
    ensures
        (match r {
            Some((v, j)) => parse_dist_items(s@, i as int) == Some((dists_view(v@), j as int)),
            None => parse_dist_items(s@, i as int) is None,
        }),
    decreases s@.len() - i,
{
    match p_dist(s, i) {
        Some((d, j)) => {
            if !(i < j && j <= s.len()) {
                return None;
            }
            match match_lit(s, j, ",") {
                Some(j2) => {
                    if j2 <= j {
                        return None;
                    }
                    match p_dist_items(s, j2) {
                        Some((rest, j3)) => {
                            let mut out = rest;
                            out.insert(0, d);
                            proof {
                                assert(dists_view(out@) =~= seq![d as int] + dists_view(
                                    out@.drop_first(),
                                ));
                                assert(out@.drop_first() =~= out@.subrange(1, out@.len() as int));
                            }
                            Some((out, j3))
                        },
                        None => None,
                    }
                },
                None => match match_lit(s, j, "]") {
                    Some(j2) => {
                        let mut out: Vec<i64> = Vec::new();
                        out.push(d);
                        proof {
                            assert(dists_view(out@) =~= seq![d as int]);
                        }
                        Some((out, j2))
                    },
                    None => None,
                },
            }
        },
        None => None,
    }
}

fn p_opt_dists(s: &Vec<char>, i: usize) -> (r: Option<(Option<Vec<i64>>, usize)>)
    ensures
        (match r {
            Some((o, j)) => parse_opt_dist(s@, i as int) == Some(
                (
                    match o {
                        Some(v) => Some(dists_view(v@)),
                        None => None,
                    },
                    j as int,
                ),
            ),
            None => parse_opt_dist(s@, i as int) is None,
        }),
{
    match match_lit(s, i, "null") {
        Some(j) => Some((None, j)),
        None => match match_lit(s, i, "[") {
            Some(j) => match match_lit(s, j, "]") {
                Some(j2) => {
                    let out: Vec<i64> = Vec::new();
                    proof {
                        assert(dists_view(out@) =~= Seq::<int>::empty());
                    }
                    Some((Some(out), j2))
                },
                None => match p_dist_items(s, j) {
                    Some((v, j2)) => Some((Some(v), j2)),
                    None => None,
                },
            },
            None => None,
        },
    }
}

/// Converts a parsed distance list into jump attempts.
fn to_jump_attempts(v: Vec<i64>) -> (r: Vec<JumpAttempt>)
    ensures
        jump_view(r@) == dists_view(v@),
{
    let mut r: Vec<JumpAttempt> = Vec::new();
    let mut k: usize = 0;
    while k < v.len()
        invariant
            0 <= k <= v@.len(),
            jump_view(r@) == dists_view(v@.subrange(0, k as int)),
        decreases v@.len() - k,
    {
        let ghost r0 = r@;
        r.push(JumpAttempt { distance: v[k] });
        proof {
            assert(jump_view(r0).len() == r0.len());
            assert(r0.len() == k as int);
            assert forall|m: int|
                0 <= m < k as int + 1 implies jump_view(r@)[m] == dists_view(
                v@.subrange(0, k as int + 1),
            )[m] by {
                if m < k as int {
                    assert(r@[m] == r0[m]);
                    assert(jump_view(r0)[m] == dists_view(v@.subrange(0, k as int))[m]);
                } else {
                    assert(r@[m] == (JumpAttempt { distance: v@[k as int] }));
                }
                assert(v@.subrange(0, k as int + 1)[m] == v@[m]);
            }
            assert(jump_view(r@) =~= dists_view(v@.subrange(0, k as int + 1)));
        }
        k += 1;
    }
    proof {
        assert(v@.subrange(0, v@.len() as int) =~= v@);
    }
    r
}

/// Converts a parsed distance list into shot-put attempts.
fn to_kugel_attempts(v: Vec<i64>) -> (r: Vec<KugelAttempt>)
    ensures
        kugel_view(r@) == dists_view(v@),
{
    let mut r: Vec<KugelAttempt> = Vec::new();
    let mut k: usize = 0;
    while k < v.len()
        invariant
            0 <= k <= v@.len(),
            kugel_view(r@) == dists_view(v@.subrange(0, k as int)),
        decreases v@.len() - k,
    {
        let ghost r0 = r@;
        r.push(KugelAttempt { distance: v[k] });
        proof {
            assert(kugel_view(r0).len() == r0.len());
            assert(r0.len() == k as int);
            assert forall|m: int|
                0 <= m < k as int + 1 implies kugel_view(r@)[m] == dists_view(
                v@.subrange(0, k as int + 1),
            )[m] by {
                if m < k as int {
                    assert(r@[m] == r0[m]);
                    assert(kugel_view(r0)[m] == dists_view(v@.subrange(0, k as int))[m]);
                } else {
                    assert(r@[m] == (KugelAttempt { distance: v@[k as int] }));
                }
                assert(v@.subrange(0, k as int + 1)[m] == v@[m]);
            }
            assert(kugel_view(r@) =~= dists_view(v@.subrange(0, k as int + 1)));
        }
        k += 1;
    }
    proof {
        assert(v@.subrange(0, v@.len() as int) =~= v@);
    }
    r
}

fn p_competitor(s: &Vec<char>, i: usize) -> (r: Option<(Competitor, usize)>)
    ensures
        (match r {
            Some((c, j)) => parse_competitor(s@, i as int) == Some((c@, j as int)),
            None => parse_competitor(s@, i as int) is None,
        }),
{
    proof {
        reveal(parse_competitor);
        reveal(parse_competitor_rest);
    }
    let j1 = match match_lit(s, i, "{\"id\":") {
        Some(j) => j,
        None => {
            return None;
        },
    };
    let (id, j2) = match p_string(s, j1) {
        Some(x) => x,
        None => {
            return None;
        },
    };
    let j3 = match match_lit(s, j2, ",\"name\":") {
        Some(j) => j,
        None => {
            return None;
        },
    };
    let (name, j4) = match p_string(s, j3) {
        Some(x) => x,
        None => {
            return None;
        },
    };
    let j5 = match match_lit(s, j4, ",\"competition_type\":") {
        Some(j) => j,
        None => {
            return None;
        },
    };
    let (ct, j6) = match p_ctype(s, j5) {
        Some(x) => x,
        None => {
            return None;
        },
    };
    let j7 = match match_lit(s, j6, ",\"pole_vault_attempts\":") {
        Some(j) => j,
        None => {
            return None;
        },
    };
    let (pv, j8) = match p_opt_pva(s, j7) {
        Some(x) => x,
        None => {
            return None;
        },
    };
    let j9 = match match_lit(s, j8, ",\"climbing_time\":") {
        Some(j) => j,
        None => {
            return None;
        },
    };
    let (climbing, j10) = match p_opt_num(s, j9) {
        Some(x) => x,
        None => {
            return None;
        },
    };
    let j11 = match match_lit(s, j10, ",\"sprint_time\":") {
        Some(j) => j,
        None => {
            return None;
        },
    };
    let (sprint, j12) = match p_opt_num(s, j11) {
        Some(x) => x,
        None => {
            return None;
        },
    };
    let j13 = match match_lit(s, j12, ",\"sprint_5jump\":") {
        Some(j) => j,
        None => {
            return None;
        },
    };
    let (jmp, j14) = match p_opt_dists(s, j13) {
        Some(x) => x,
        None => {
            return None;
        },
    };
    let j15 = match match_lit(s, j14, ",\"kugel_distance\":") {
        Some(j) => j,
        None => {
            return None;
        },
    };
    let (kd, j16) = match p_opt_num(s, j15) {
        Some(x) => x,
        None => {
            return None;
        },
    };
    let j17 = match match_lit(s, j16, ",\"wsprint_time\":") {
        Some(j) => j,
        None => {
            return None;
        },
    };
    let (ws, j18) = match p_opt_num(s, j17) {
        Some(x) => x,
        None => {
            return None;
        },
    };
    let j19 = match match_lit(s, j18, ",\"kugel_attempts\":") {
        Some(j) => j,
        None => {
            return None;
        },
    };
    let (ka, j20) = match p_opt_dists(s, j19) {
        Some(x) => x,
        None => {
            return None;
        },
    };
    let j21 = match match_lit(s, j20, "}") {
        Some(j) => j,
        None => {
            return None;
        },
    };
    let jumps = match jmp {
        Some(v) => Some(to_jump_attempts(v)),
        None => None,
    };
    let kugels = match ka {
        Some(v) => Some(to_kugel_attempts(v)),
        None => None,
    };
    let c = Competitor {
        id,
        name,
        competition_type: ct,
        pole_vault_attempts: pv,
        climbing_time: climbing,
        sprint_time: sprint,
        sprint_5jump: jumps,
        kugel_distance: kd,
        wsprint_time: ws,
        kugel_attempts: kugels,
    };
    Some((c, j21))
}

fn p_comp_items(s: &Vec<char>, i: usize) -> (r: Option<(Vec<Competitor>, usize)>)
    ensures
        (match r {
            Some((v, j)) => parse_comp_items(s@, i as int) == Some((roster_view(v@), j as int)),
            None => parse_comp_items(s@, i as int) is None,
        }),
    decreases s@.len() - i,
{
    match p_competitor(s, i) {
        Some((c, j)) => {
            if !(i < j && j <= s.len()) {
                return None;
            }
            match match_lit(s, j, ",") {
                Some(j2) => {
                    if j2 <= j {
                        return None;
                    }
                    match p_comp_items(s, j2) {
                        Some((rest, j3)) => {
                            let ghost cv = c@;
                            let mut out = rest;
                            out.insert(0, c);
                            proof {
                                assert(roster_view(out@) =~= seq![cv] + roster_view(
                                    out@.drop_first(),
                                ));
                                assert(out@.drop_first() =~= out@.subrange(1, out@.len() as int));
                            }
                            Some((out, j3))
                        },
                        None => None,
                    }
                },
                None => match match_lit(s, j, "]") {
                    Some(j2) => {
                        let ghost cv = c@;
                        let mut out: Vec<Competitor> = Vec::new();
                        out.push(c);
                        proof {
                            assert(roster_view(out@) =~= seq![cv]);
                        }
                        Some((out, j2))
                    },
                    None => None,
                },
            }
        },
        None => None,
    }
}

fn p_competition(s: &Vec<char>, i: usize) -> (r: Option<(Competition, usize)>)
    ensures
        (match r {
            Some((c, j)) => parse_competition(s@, i as int) == Some((c@, j as int)),
            None => parse_competition(s@, i as int) is None,
        }),
{
    let j1 = match match_lit(s, i, "{\"name\":") {
        Some(j) => j,
        None => {
            return None;
        },
    };
    let (name, j2) = match p_string(s, j1) {
        Some(x) => x,
        None => {
            return None;
        },
    };
    let j3 = match match_lit(s, j2, ",\"competitors\":[") {
        Some(j) => j,
        None => {
            return None;
        },
    };
    match match_lit(s, j3, "]}") {
        Some(j4) => {
            let c = Competition { name, competitors: Vec::new() };
            proof {
                assert(c@.competitors =~= Seq::<CompetitorView>::empty());
            }
            Some((c, j4))
        },
        None => {
            let (cs, j4) = match p_comp_items(s, j3) {
                Some(x) => x,
                None => {
                    return None;
                },
            };
            let j5 = match match_lit(s, j4, "}") {
                Some(j) => j,
                None => {
                    return None;
                },
            };
            let c = Competition { name, competitors: cs };
            Some((c, j5))
        },
    }
}

/// Parses a competition document; fails with `ParseError` when the
/// text is not a canonical encoded document.
pub fn decode(doc: &str) -> (r: Result<Competition, StoreError>)
    ensures
        (match r {
            Ok(c) => spec_decode(doc@) == Some(c@),
            Err(e) => spec_decode(doc@) is None && e is ParseError,
        }),
{
    let chars = str_to_chars(doc);
    match p_competition(&chars, 0) {
        Some((c, j)) => {
            if j == chars.len() {
                Ok(c)
            } else {
                Err(StoreError::ParseError(String::from_str(
                    "unexpected characters after the competition document",
                )))
            }
        },
        None => Err(StoreError::ParseError(String::from_str(
            "malformed competition document",
        ))),
    }
}

} // verus!
