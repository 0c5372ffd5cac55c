//! Decisions of the loop that runs a job: how a waiting time reads.

use crate::text::{decimal, push_decimal, push_str, string_from_chars};
use vstd::prelude::*;

verus! {

/// A number of seconds in its two largest units: "42s", "5m 3s", "2h 10m", "3d 4h".
pub open spec fn duration_text(secs: nat) -> Seq<char> {
    if secs < 60 {
        decimal(secs) + "s"@
    } else if secs < 3600 {
        decimal(secs / 60) + "m "@ + decimal(secs % 60) + "s"@
    } else if secs < 86400 {
        decimal(secs / 3600) + "h "@ + decimal((secs % 3600) / 60) + "m"@
    } else {
        decimal(secs / 86400) + "d "@ + decimal((secs % 86400) / 3600) + "h"@
    }
}

/// A wait reads in its largest unit that is not zero, with the next smaller unit after
/// it: under a minute in seconds; otherwise as `q` minutes and `r` seconds, `q` hours and
/// `r` minutes, or `q` days and `r` hours, where `q` is at least one and below the size
/// of the next larger unit, `r` is below the size of its unit, and what is left below
/// `r`'s unit is dropped.
pub proof fn lemma_duration_units(secs: nat, q: nat, r: nat, rest: nat)
    ensures
        secs < 60 ==> duration_text(secs) == decimal(secs) + "s"@,
        secs == q * 60 + r && 1 <= q < 60 && r < 60 ==> duration_text(secs) == decimal(q) + "m "@
            + decimal(r) + "s"@,
        secs == q * 3600 + r * 60 + rest && 1 <= q < 24 && r < 60 && rest < 60 ==> duration_text(
            secs,
        ) == decimal(q) + "h "@ + decimal(r) + "m"@,
        secs == q * 86400 + r * 3600 + rest && 1 <= q && r < 24 && rest < 3600 ==> duration_text(
            secs,
        ) == decimal(q) + "d "@ + decimal(r) + "h"@,
{
    if secs == q * 60 + r && 1 <= q < 60 && r < 60 {
        vstd::arithmetic::div_mod::lemma_fundamental_div_mod_converse(secs as int, 60, q as int, r as int);
    }
    if secs == q * 3600 + r * 60 + rest && 1 <= q < 24 && r < 60 && rest < 60 {
        vstd::arithmetic::div_mod::lemma_fundamental_div_mod_converse(
            secs as int,
            3600,
            q as int,
            (r * 60 + rest) as int,
        );
        vstd::arithmetic::div_mod::lemma_fundamental_div_mod_converse(
            (r * 60 + rest) as int,
            60,
            r as int,
            rest as int,
        );
    }
    if secs == q * 86400 + r * 3600 + rest && 1 <= q && r < 24 && rest < 3600 {
        vstd::arithmetic::div_mod::lemma_fundamental_div_mod_converse(
            secs as int,
            86400,
            q as int,
            (r * 3600 + rest) as int,
        );
        vstd::arithmetic::div_mod::lemma_fundamental_div_mod_converse(
            (r * 3600 + rest) as int,
            3600,
            r as int,
            rest as int,
        );
    }
}

/// How long a wait of `secs` seconds is, in words.
pub fn humanize(secs: u64) -> (r: String)
    ensures
        r@ == duration_text(secs as nat),
{
    let mut out: Vec<char> = Vec::new();
    if secs < 60 {
        push_decimal(&mut out, secs);
        push_str(&mut out, "s");
    } else if secs < 3600 {
        push_decimal(&mut out, secs / 60);
        push_str(&mut out, "m ");
        push_decimal(&mut out, secs % 60);
        push_str(&mut out, "s");
    } else if secs < 86400 {
        let h = secs / 3600;
        let m = (secs % 3600) / 60;
        push_decimal(&mut out, h);
        push_str(&mut out, "h ");
        push_decimal(&mut out, m);
        push_str(&mut out, "m");
    } else {
        let d = secs / 86400;
        let h = (secs % 86400) / 3600;
        push_decimal(&mut out, d);
        push_str(&mut out, "d ");
        push_decimal(&mut out, h);
        push_str(&mut out, "h");
    }
    assert(out@ =~= duration_text(secs as nat));
    string_from_chars(&out)
}

} // verus!
