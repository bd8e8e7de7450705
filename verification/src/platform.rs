//! Platform conditions: parsing `cfg(...)` strings into predicates and
//! rendering a combined configuration guard for a merge group.

use vstd::prelude::*;

verus! {

/// A platform-condition string that could not be parsed.
#[derive(Clone, Copy, PartialEq, Eq, Structural, Debug)]
pub struct PlatformParseError;

/// A platform predicate: one configuration expression, or the disjunction of
/// several expression texts.
pub enum PlatformPredicate {
    Cfg(String),
    Any(Vec<String>),
}

/// A rendered configuration-guard expression string.
pub struct PlatformExpr(pub String);

/// The view of an optional guard expression.
pub open spec fn view_opt_expr(o: Option<PlatformExpr>) -> Option<Seq<char>> {
    match o {
        Option::Some(e) => Option::Some(e.0@),
        Option::None => Option::None,
    }
}

/// Accepted platform-condition strings: exactly the `cfg(<inner>)` shell
/// with nonempty inner text. The inner text is taken verbatim and not
/// validated further. A bare target triple is not accepted: it is a parse
/// failure, so a merge group drops such a declaration (and a group left with
/// no parsed condition becomes unconditional).
pub open spec fn is_cfg_form(s: Seq<char>) -> bool {
    &&& s.len() >= 6
    &&& s[0] == 'c'
    &&& s[1] == 'f'
    &&& s[2] == 'g'
    &&& s[3] == '('
    &&& s[s.len() - 1] == ')'
}

/// The inner expression text of a `cfg(...)` string.
pub open spec fn cfg_inner(s: Seq<char>) -> Seq<char> {
    s.subrange(4, s.len() - 1)
}

/// The predicate texts joined by `", "`.
pub open spec fn join_commas(ts: Seq<Seq<char>>) -> Seq<char>
    decreases ts.len(),
{
    if ts.len() == 0 {
        Seq::empty()
    } else if ts.len() == 1 {
        ts[0]
    } else {
        ts[0] + seq![',', ' '] + join_commas(ts.skip(1))
    }
}

/// The rendering of a disjunction: `any(<t0>, <t1>, ...)`.
pub open spec fn any_text(ts: Seq<Seq<char>>) -> Seq<char> {
    seq!['a', 'n', 'y', '('] + join_commas(ts) + seq![')']
}

/// The text of a predicate.
pub open spec fn pred_text(p: PlatformPredicate) -> Seq<char> {
    match p {
        PlatformPredicate::Cfg(s) => s@,
        PlatformPredicate::Any(ps) => any_text(ps@.map_values(|s: String| s@)),
    }
}

/// The rendering of a whole guard: `cfg(<text>)`.
pub open spec fn cfg_wrap(t: Seq<char>) -> Seq<char> {
    seq!['c', 'f', 'g', '('] + t + seq![')']
}

/// The combined guard of a merge group, over the group's predicate texts:
/// absent when some declaration is unconditional or no predicate parsed,
/// a single predicate's own guard otherwise, else the guard of their
/// disjunction.
pub open spec fn guard_spec(unconditional: bool, ts: Seq<Seq<char>>) -> Option<Seq<char>> {
    if unconditional || ts.len() == 0 {
        Option::None
    } else if ts.len() == 1 {
        Option::Some(cfg_wrap(ts[0]))
    } else {
        Option::Some(cfg_wrap(any_text(ts)))
    }
}

/// Parse a platform-condition string: exactly the `cfg(...)` forms are
/// accepted (see `is_cfg_form` for the grammar), everything else — a bare
/// target triple included — is a parse failure.
pub fn parse(s: &str) -> (r: Result<PlatformPredicate, PlatformParseError>)
    ensures
        match r {
            Result::Ok(p) => is_cfg_form(s@) && p is Cfg && pred_text(p) == cfg_inner(s@),
            Result::Err(_) => !is_cfg_form(s@),
        },
{
    let len = s.unicode_len();
    if len < 6 {
        return Result::Err(PlatformParseError);
    }
    if s.get_char(0) != 'c' || s.get_char(1) != 'f' || s.get_char(2) != 'g' || s.get_char(3)
        != '(' || s.get_char(len - 1) != ')' {
        return Result::Err(PlatformParseError);
    }
    let inner = s.substring_char(4, len - 1);
    Result::Ok(PlatformPredicate::Cfg(inner.to_owned()))
}

/// Joining one more text appends a `", "` separator unless nothing precedes it.
proof fn lemma_join_commas_push(ts: Seq<Seq<char>>, t: Seq<char>)
    ensures
        join_commas(ts.push(t)) == if ts.len() == 0 {
            t
        } else {
            join_commas(ts) + seq![',', ' '] + t
        },
    decreases ts.len(),
{
    if ts.len() == 0 {
        assert(ts.push(t)[0] == t);
    } else if ts.len() == 1 {
        assert(ts.push(t).skip(1) =~= seq![t]);
        assert(join_commas(seq![t]) == t);
    } else {
        assert(ts.push(t).skip(1) =~= ts.skip(1).push(t));
        lemma_join_commas_push(ts.skip(1), t);
        assert(join_commas(ts.push(t)) == ts[0] + seq![',', ' '] + (join_commas(ts.skip(1))
            + seq![',', ' '] + t));
        assert(ts[0] + seq![',', ' '] + (join_commas(ts.skip(1)) + seq![',', ' '] + t) =~= (ts[0]
            + seq![',', ' '] + join_commas(ts.skip(1))) + seq![',', ' '] + t);
    }
}

/// Render the guard expression `cfg(<text of p>)`.
pub fn render_guard(p: &PlatformPredicate) -> (r: PlatformExpr)
    ensures
        r.0@ == cfg_wrap(pred_text(*p)),
{
    proof {
        reveal_strlit("cfg(");
        reveal_strlit(")");
        assert("cfg("@ =~= seq!['c', 'f', 'g', '(']);
        assert(")"@ =~= seq![')']);
    }
    let mut out: String = "cfg(".to_owned();
    match p {
        PlatformPredicate::Cfg(s) => {
            out.append(s.as_str());
        },
        PlatformPredicate::Any(ps) => {
            proof {
                reveal_strlit("any(");
                reveal_strlit(", ");
                assert("any("@ =~= seq!['a', 'n', 'y', '(']);
                assert(", "@ =~= seq![',', ' ']);
            }
            out.append("any(");
            let ghost views = ps@.map_values(|s: String| s@);
            let mut k: usize = 0;
            while k < ps.len()
                invariant
                    k <= ps.len(),
                    views == ps@.map_values(|s: String| s@),
                    out@ == seq!['c', 'f', 'g', '('] + seq!['a', 'n', 'y', '('] + join_commas(
                        views.take(k as int),
                    ),
                decreases ps.len() - k,
            {
                proof {
                    reveal_strlit(", ");
                    assert(", "@ =~= seq![',', ' ']);
                }
                if k > 0 {
                    out.append(", ");
                }
                out.append(ps[k].as_str());
                proof {
                    assert(views[k as int] == ps@[k as int]@);
                    assert(views.take(k as int).push(views[k as int]) =~= views.take(k as int + 1));
                    lemma_join_commas_push(views.take(k as int), views[k as int]);
                    assert(views.take(k as int).len() == k as int);
                    assert(out@ =~= seq!['c', 'f', 'g', '('] + seq!['a', 'n', 'y', '(']
                        + join_commas(views.take(k as int + 1)));
                }
                k = k + 1;
            }
            proof {
                assert(views.take(ps@.len() as int) =~= views);
            }
            out.append(")");
        },
    }
    out.append(")");
    proof {
        assert(out@ =~= cfg_wrap(pred_text(*p)));
    }
    PlatformExpr(out)
}

/// Combine a merge group's findings into a single optional guard: `preds`
/// holds the parsed predicate texts, `unconditional` whether some applicable
/// declaration had no platform condition.
pub fn combine_guards(unconditional: bool, preds: Vec<String>) -> (r: Option<PlatformExpr>)
    ensures
        view_opt_expr(r) == guard_spec(unconditional, preds@.map_values(|s: String| s@)),
{
    let ghost views = preds@.map_values(|s: String| s@);
    if unconditional || preds.len() == 0 {
        return Option::None;
    }
    if preds.len() == 1 {
        let mut preds = preds;
        let only = preds.remove(0);
        let p = PlatformPredicate::Cfg(only);
        let e = render_guard(&p);
        proof {
            assert(views[0] == pred_text(p));
        }
        return Option::Some(e);
    }
    let p = PlatformPredicate::Any(preds);
    let e = render_guard(&p);
    Option::Some(e)
}

} // verus!
