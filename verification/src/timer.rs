use vstd::prelude::*;
use vstd::string::StringExecFns;
use crate::domain::{ascii_chars, ascii_string};

verus! {

/// The decimal digits of a number, as bytes, most significant first.
pub open spec fn dec_bytes(n: nat) -> Seq<u8>
    decreases n,
{
    if n < 10 {
        seq![(48 + n) as u8]
    } else {
        dec_bytes(n / 10).push((48 + n % 10) as u8)
    }
}

proof fn lemma_dec_bytes_ascii(n: nat)
    ensures
        forall|i: int| 0 <= i < dec_bytes(n).len() ==> 48 <= #[trigger] dec_bytes(n)[i] <= 57,
    decreases n,
{
    if n >= 10 {
        lemma_dec_bytes_ascii(n / 10);
        assert forall|i: int| 0 <= i < dec_bytes(n).len() implies 48 <= #[trigger] dec_bytes(
            n,
        )[i] <= 57 by {
            if i < dec_bytes(n).len() - 1 {
                assert(dec_bytes(n)[i] == dec_bytes(n / 10)[i]);
            }
        }
    }
}

/// A number rendered in decimal.
pub fn u64_string(n: u64) -> (r: String)
    ensures
        r@ == ascii_chars(dec_bytes(n as nat)),
{
    let mut rest = n;
    let mut tail: Vec<u8> = Vec::new();
    while rest >= 10
        invariant
            dec_bytes(n as nat) =~= dec_bytes(rest as nat) + tail@.reverse(),
            forall|i: int| 0 <= i < tail@.len() ==> #[trigger] tail@[i] < 128,
        decreases rest,
    {
        let d: u8 = 48 + ((rest % 10) as u8);
        let ghost t0 = tail@;
        tail.push(d);
        proof {
            assert(tail@.reverse() =~= seq![d] + t0.reverse());
            assert(dec_bytes(rest as nat) =~= dec_bytes((rest / 10) as nat).push(d));
            assert(dec_bytes(n as nat) =~= dec_bytes((rest / 10) as nat) + tail@.reverse());
        }
        rest = rest / 10;
    }
    let mut out: Vec<u8> = Vec::new();
    out.push(48 + (rest as u8));
    proof {
        assert(out@ =~= dec_bytes(rest as nat));
    }
    let mut k: usize = tail.len();
    while k > 0
        invariant
            k <= tail@.len(),
            forall|i: int| 0 <= i < tail@.len() ==> #[trigger] tail@[i] < 128,
            out@ =~= dec_bytes(rest as nat) + tail@.reverse().take(tail@.len() - k),
        decreases k,
    {
        out.push(tail[k - 1]);
        proof {
            assert(tail@.reverse()[tail@.len() - k] == tail@[k - 1]);
            assert(out@ =~= dec_bytes(rest as nat) + tail@.reverse().take(
                tail@.len() - k + 1,
            ));
        }
        k -= 1;
    }
    proof {
        assert(tail@.reverse().take(tail@.len() as int) =~= tail@.reverse());
        assert(out@ =~= dec_bytes(n as nat));
        lemma_dec_bytes_ascii(n as nat);
        assert forall|i: int| 0 <= i < out@.len() implies #[trigger] out@[i] < 128 by {
            assert(out@[i] == dec_bytes(n as nat)[i]);
        }
    }
    ascii_string(&out)
}

/// The human form of a span of milliseconds, from coarse to fine:
/// days, hours and minutes; hours, minutes and seconds; minutes and
/// seconds; seconds, with tenths when they matter; or milliseconds.
pub open spec fn duration_chars(ms: nat) -> Seq<char> {
    let secs = ms / 1000;
    let minutes = secs / 60;
    let hours = minutes / 60;
    let days = hours / 24;
    if days > 0 {
        ascii_chars(dec_bytes(days)) + "days "@ + ascii_chars(dec_bytes((hours - days * 24) as nat))
            + "hours "@ + ascii_chars(dec_bytes((minutes - hours * 60) as nat)) + "mins"@
    } else if hours > 0 {
        ascii_chars(dec_bytes(hours)) + "hours "@ + ascii_chars(
            dec_bytes((minutes - hours * 60) as nat),
        ) + "mins "@ + ascii_chars(dec_bytes((secs - minutes * 60) as nat)) + "secs"@
    } else if minutes > 0 {
        ascii_chars(dec_bytes(minutes)) + "mins "@ + ascii_chars(
            dec_bytes((secs - minutes * 60) as nat),
        ) + "secs"@
    } else if secs > 0 {
        if ms % 1000 >= 100 {
            ascii_chars(dec_bytes(secs)) + "."@ + ascii_chars(dec_bytes((ms % 1000) / 100))
                + "secs"@
        } else {
            ascii_chars(dec_bytes(secs)) + "secs"@
        }
    } else {
        ascii_chars(dec_bytes(ms)) + "ms"@
    }
}

/// Renders a time span for the logs.
pub trait Timer {
    /// The span in milliseconds.
    spec fn millis(&self) -> nat;

    fn t(&self) -> (r: String)
        ensures
            r@ == duration_chars(self.millis()),
    ;
}

/// A span of milliseconds.
#[derive(Clone, Copy, PartialEq, Eq, Structural, Debug)]
pub struct Millis(pub u64);

impl Timer for Millis {
    open spec fn millis(&self) -> nat {
        self.0 as nat
    }

    fn t(&self) -> (r: String) {
        let ms = self.0;
        let secs = ms / 1000;
        let minutes = secs / 60;
        let hours = minutes / 60;
        let days = hours / 24;
        let mut out: String;
        if days > 0 {
            out = u64_string(days);
            out.append("days ");
            out.append(u64_string(hours - days * 24).as_str());
            out.append("hours ");
            out.append(u64_string(minutes - hours * 60).as_str());
            out.append("mins");
        } else if hours > 0 {
            out = u64_string(hours);
            out.append("hours ");
            out.append(u64_string(minutes - hours * 60).as_str());
            out.append("mins ");
            out.append(u64_string(secs - minutes * 60).as_str());
            out.append("secs");
        } else if minutes > 0 {
            out = u64_string(minutes);
            out.append("mins ");
            out.append(u64_string(secs - minutes * 60).as_str());
            out.append("secs");
        } else if secs > 0 {
            if ms % 1000 >= 100 {
                out = u64_string(secs);
                out.append(".");
                out.append(u64_string((ms % 1000) / 100).as_str());
                out.append("secs");
            } else {
                out = u64_string(secs);
                out.append("secs");
            }
        } else {
            out = u64_string(ms);
            out.append("ms");
        }
        out
    }
}

} // verus!
