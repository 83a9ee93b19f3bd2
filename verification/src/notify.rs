//! Notification text: the title and body strings handed to the fire-and-
//! forget notification sink. Dispatch failures are the caller's to ignore;
//! this module only renders the words.

use vstd::prelude::*;

use crate::text::{append_chars, chars_to_string, dec_of, str_to_chars, u64_to_dec_chars};

verus! {

/// An "s" for any count but one.
pub open spec fn plural_suffix(n: nat) -> Seq<char> {
    if n > 1 {
        "s"@
    } else {
        ""@
    }
}

/// A duration in minutes, spelt out: whole hours with an "and minutes" tail
/// only when minutes remain, else minutes alone.
pub open spec fn spec_duration_text(m: nat) -> Seq<char> {
    if m >= 60 {
        let h = m / 60;
        let r = m % 60;
        if r > 0 {
            dec_of(h) + " hour"@ + plural_suffix(h) + " and "@ + dec_of(r) + " minute"@
                + plural_suffix(r)
        } else {
            dec_of(h) + " hour"@ + plural_suffix(h)
        }
    } else {
        dec_of(m) + " minute"@ + plural_suffix(m)
    }
}

/// Append the plural suffix for the count.
fn push_plural(out: &mut Vec<char>, n: u64)
    ensures
        final(out)@ == old(out)@ + plural_suffix(n as nat),
{
    if n > 1 {
        let s = str_to_chars("s");
        append_chars(out, &s);
    } else {
        proof {
            reveal_strlit("");
            assert(out@ + plural_suffix(n as nat) =~= out@);
        }
    }
}

/// Spell a duration in minutes out in words.
pub fn format_duration_text(minutes: u64) -> (r: String)
    ensures
        r@ == spec_duration_text(minutes as nat),
{
    let mut out: Vec<char> = Vec::new();
    if minutes >= 60 {
        let h = minutes / 60;
        let m = minutes % 60;
        let hd = u64_to_dec_chars(h);
        append_chars(&mut out, &hd);
        let hour = str_to_chars(" hour");
        append_chars(&mut out, &hour);
        push_plural(&mut out, h);
        if m > 0 {
            let and = str_to_chars(" and ");
            append_chars(&mut out, &and);
            let md = u64_to_dec_chars(m);
            append_chars(&mut out, &md);
            let minute = str_to_chars(" minute");
            append_chars(&mut out, &minute);
            push_plural(&mut out, m);
        }
    } else {
        let md = u64_to_dec_chars(minutes);
        append_chars(&mut out, &md);
        let minute = str_to_chars(" minute");
        append_chars(&mut out, &minute);
        push_plural(&mut out, minutes);
    }
    proof {
        assert(out@ =~= spec_duration_text(minutes as nat));
    }
    chars_to_string(&out)
}

/// The notification shown each time a blocked app is detected: its name with
/// a "Blocked" tag, and a fixed explanation.
pub fn block_notification(app_name: &str) -> (r: (String, String))
    ensures
        r.0@ == app_name@ + " Blocked"@,
        r.1@ == "This app is blocked during your focus session"@,
{
    let mut title = str_to_chars(app_name);
    let tag = str_to_chars(" Blocked");
    append_chars(&mut title, &tag);
    (
        chars_to_string(&title),
        String::from_str("This app is blocked during your focus session"),
    )
}

/// The notification shown when a focus session completes, congratulating on
/// the session's spelt-out duration.
pub fn session_complete_notification(duration_minutes: u64) -> (r: (String, String))
    ensures
        r.0@ == "Focus Session Complete!"@,
        r.1@ == "Congratulations! You completed a "@ + spec_duration_text(duration_minutes as nat)
            + " focus session"@,
{
    let mut body = str_to_chars("Congratulations! You completed a ");
    let mid = format_duration_text(duration_minutes);
    let mid_cs = str_to_chars(mid.as_str());
    append_chars(&mut body, &mid_cs);
    let tail = str_to_chars(" focus session");
    append_chars(&mut body, &tail);
    (String::from_str("Focus Session Complete!"), chars_to_string(&body))
}

} // verus!
