//! Uptime in words.

use vstd::prelude::*;
use vstd::string::StringExecFns;
use crate::text::{decimal_string, decimal_text, words_view};

verus! {

/// Seconds in each unit, largest first: a year of 365 days, a month of 28.
pub open spec fn unit_seconds(u: nat) -> nat {
    if u == 0 { 31536000 }
    else if u == 1 { 2419200 }
    else if u == 2 { 86400 }
    else if u == 3 { 3600 }
    else if u == 4 { 60 }
    else { 1 }
}

pub open spec fn unit_name(u: nat) -> Seq<char> {
    if u == 0 { seq!['y', 'e', 'a', 'r'] }
    else if u == 1 { seq!['m', 'o', 'n', 't', 'h'] }
    else if u == 2 { seq!['d', 'a', 'y'] }
    else if u == 3 { seq!['h', 'o', 'u', 'r'] }
    else if u == 4 { seq!['m', 'i', 'n', 'u', 't', 'e'] }
    else { seq!['s', 'e', 'c', 'o', 'n', 'd'] }
}

/// `q unit`, with a plural `s` unless `q` is one.
pub open spec fn quantity_text(q: nat, u: nat) -> Seq<char> {
    decimal_text(q) + seq![' '] + unit_name(u) + if q == 1 {
        Seq::<char>::empty()
    } else {
        seq!['s']
    }
}

/// The non-zero quantities of `rem` seconds in units `u` and smaller.
pub open spec fn duration_parts(rem: nat, u: nat) -> Seq<Seq<char>>
    decreases 6 - u,
{
    if u >= 6 {
        Seq::empty()
    } else {
        let q = rem / unit_seconds(u);
        let rest = duration_parts(rem % unit_seconds(u), u + 1);
        if q == 0 {
            rest
        } else {
            seq![quantity_text(q, u)] + rest
        }
    }
}

/// Pieces joined by `, `.
pub open spec fn join_commas(ws: Seq<Seq<char>>) -> Seq<char>
    decreases ws.len(),
{
    if ws.len() == 0 {
        Seq::empty()
    } else if ws.len() == 1 {
        ws[0]
    } else {
        join_commas(ws.drop_last()) + seq![',', ' '] + ws.last()
    }
}

/// `sec` seconds in words: `less than a second`, one quantity, or the
/// quantities joined by commas with `and` before the last.
pub open spec fn duration_text(sec: nat) -> Seq<char> {
    let p = duration_parts(sec, 0);
    if sec == 0 {
        "less than a second"@
    } else if p.len() == 1 {
        p[0]
    } else {
        join_commas(p.drop_last()) + seq![' ', 'a', 'n', 'd', ' '] + p.last()
    }
}

fn unit(u: usize) -> (r: (&'static str, u64))
    requires
        u < 6,
    ensures
        r.0@ == unit_name(u as nat),
        r.1 as nat == unit_seconds(u as nat),
{
    proof {
        reveal_strlit("year");
        reveal_strlit("month");
        reveal_strlit("day");
        reveal_strlit("hour");
        reveal_strlit("minute");
        reveal_strlit("second");
    }
    let r = if u == 0 { ("year", 31536000) }
    else if u == 1 { ("month", 2419200) }
    else if u == 2 { ("day", 86400) }
    else if u == 3 { ("hour", 3600) }
    else if u == 4 { ("minute", 60) }
    else { ("second", 1) };
    assert(r.0@ =~= unit_name(u as nat));
    r
}

/// `sec` seconds in words, such as `1 hour, 2 minutes and 1 second`.
pub fn duration_string(sec: u64) -> (r: String)
    ensures
        r@ == duration_text(sec as nat),
{
    if sec == 0 {
        return String::from_str("less than a second");
    }
    let mut out: Vec<String> = Vec::new();
    let mut rem: u64 = sec;
    let mut u: usize = 0;
    while u < 6
        invariant
            u <= 6,
            words_view(out@) + duration_parts(rem as nat, u as nat) == duration_parts(sec as nat, 0),
        decreases 6 - u,
    {
        let (name, amount) = unit(u);
        let q = rem / amount;
        let ghost before = out@;
        if q > 0 {
            proof {
                reveal_strlit(" ");
                reveal_strlit("s");
            }
            let mut piece = decimal_string(q);
            piece.append(" ");
            piece.append(name);
            if q != 1 {
                piece.append("s");
            }
            assert(piece@ =~= quantity_text(q as nat, u as nat));
            out.push(piece);
            proof {
                assert(words_view(out@) =~= words_view(before).push(quantity_text(q as nat, u as nat)));
                assert(seq![quantity_text(q as nat, u as nat)] + duration_parts((rem % amount) as nat, u as nat + 1)
                    =~= duration_parts(rem as nat, u as nat));
                assert(words_view(out@) + duration_parts((rem % amount) as nat, u as nat + 1) =~= words_view(
                    before,
                ) + duration_parts(rem as nat, u as nat));
            }
        }
        rem = rem % amount;
        u = u + 1;
    }
    assert(words_view(out@) =~= duration_parts(sec as nat, 0));
    proof {
        lemma_parts_nonempty(sec as nat, 0);
        reveal_strlit("less than a second");
    }
    join_duration(&out)
}

proof fn lemma_parts_nonempty(rem: nat, u: nat)
    requires
        rem > 0,
        u <= 5,
    ensures
        duration_parts(rem, u).len() >= 1,
    decreases 6 - u,
{
    let q = rem / unit_seconds(u);
    if q == 0 && u < 5 {
        assert(rem % unit_seconds(u) == rem) by (nonlinear_arith)
            requires rem / unit_seconds(u) == 0, unit_seconds(u) > 0, rem >= 0;
        lemma_parts_nonempty(rem % unit_seconds(u), u + 1);
    }
}

/// Quantities joined by commas, with `and` before the last.
fn join_duration(parts: &Vec<String>) -> (r: String)
    requires
        parts@.len() >= 1,
    ensures
        r@ == if parts@.len() == 1 {
            parts@[0]@
        } else {
            join_commas(words_view(parts@).drop_last()) + seq![' ', 'a', 'n', 'd', ' ']
                + parts@.last()@
        },
{
    let n = parts.len();
    if n == 1 {
        return parts[0].clone();
    }
    proof {
        reveal_strlit(", ");
        reveal_strlit(" and ");
    }
    let ghost w = words_view(parts@);
    let mut out = parts[0].clone();
    let mut i: usize = 1;
    assert(w.take(1) =~= seq![w[0]]);
    while i < n - 1
        invariant
            1 <= i <= n - 1,
            n == parts@.len(),
            w == words_view(parts@),
            out@ == join_commas(w.take(i as int)),
        decreases n - 1 - i,
    {
        out.append(", ");
        out.append(parts[i].as_str());
        proof {
            reveal_strlit(", ");
            assert(", "@ =~= seq![',', ' ']);
            let t = w.take(i + 1);
            assert(t.drop_last() =~= w.take(i as int));
            assert(t.last() == w[i as int]);
        }
        i = i + 1;
    }
    out.append(" and ");
    out.append(parts[n - 1].as_str());
    assert(w.drop_last() =~= w.take(n - 1));
    assert(" and "@ =~= seq![' ', 'a', 'n', 'd', ' ']);
    out
}

} // verus!
