use vstd::prelude::*;
use crate::domain::{domain_labels_of, is_ws, lower_bytes, lower_seq, trim_bytes, trim_spec, valid_domain_bytes, Domain};

verus! {

/// One configured blocklist feed, as the store keeps it. A domain
/// count of -1 means the source was never fetched successfully.
pub struct BlockListSource {
    pub id: i64,
    pub src_url: String,
    pub retry_count: i64,
    pub domain_count: i64,
    pub last_updated_ms: i64,
}

/// Milliseconds in seven days, the refresh age limit.
pub const WEEK_MS: i64 = 604800000;

/// A source that failed too often is skipped until the operator
/// resets it.
pub fn should_skip_source(s: &BlockListSource) -> (r: bool)
    ensures
        r == (s.retry_count > 3),
{
    s.retry_count > 3
}

/// The bookkeeping after one fetch of a source: success resets the
/// retry counter and records the count; failure bumps the counter and
/// marks the source unfetched.
pub fn source_outcome(prev_retry_count: i64, fetched: Option<i64>) -> (r: (i64, i64))
    requires
        prev_retry_count < i64::MAX,
    ensures
        match fetched {
            Some(n) => r.0 == 0 && r.1 == n,
            None => r.0 == prev_retry_count + 1 && r.1 == -1,
        },
{
    match fetched {
        Some(n) => (0, n),
        None => (prev_retry_count + 1, -1),
    }
}

/// A full refresh is due when every source is still unfetched, when
/// nothing was ever written, or when the last write is over a week old.
pub fn should_refresh(
    sources: &Vec<BlockListSource>,
    last_updated_ms: Option<i64>,
    now_ms: i64,
) -> (r: bool)
    ensures
        r == ((forall|i: int| 0 <= i < sources@.len() ==> (#[trigger] sources@[i]).domain_count
            == -1) || match last_updated_ms {
            None => true,
            Some(t) => now_ms - t > WEEK_MS,
        }),
{
    let mut all_unfetched = true;
    let mut i: usize = 0;
    while i < sources.len()
        invariant
            i <= sources@.len(),
            all_unfetched == (forall|k: int| 0 <= k < i ==> (#[trigger] sources@[k]).domain_count
                == -1),
        decreases sources@.len() - i,
    {
        if sources[i].domain_count != -1 {
            proof {
                assert(sources@[i as int].domain_count != -1);
            }
            all_unfetched = false;
        }
        proof {
            if all_unfetched {
                assert forall|k: int| 0 <= k < i + 1 implies (#[trigger] sources@[k]).domain_count
                    == -1 by {}
            }
        }
        i += 1;
    }
    if all_unfetched {
        return true;
    }
    match last_updated_ms {
        None => true,
        Some(t) => (now_ms as i128) - (t as i128) > (WEEK_MS as i128),
    }
}

/// ASCII codes the feed parser cares about.
pub const NL: u8 = 10;

pub const HASH: u8 = 35;

/// Split on newline bytes, keeping empty parts.
pub open spec fn split_nl(s: Seq<u8>) -> Seq<Seq<u8>>
    decreases s.len(),
{
    if s.len() == 0 {
        seq![Seq::<u8>::empty()]
    } else {
        let r = split_nl(s.drop_last());
        if s.last() == NL {
            r.push(Seq::<u8>::empty())
        } else {
            r.update(r.len() - 1, r.last().push(s.last()))
        }
    }
}

/// A raw feed line, trimmed and lowercased.
pub open spec fn line_clean(s: Seq<u8>) -> Seq<u8> {
    lower_seq(trim_spec(s))
}

/// Drain the complete lines from a download buffer: each line comes
/// out trimmed and lowercased; the trailing partial line stays in the
/// buffer, unless this was the last chunk, which flushes it too.
pub fn take_lines(buff: &mut Vec<u8>, is_last: bool) -> (r: Vec<Vec<u8>>)
    ensures
        ({
            let segs = split_nl(old(buff)@);
            &&& (if is_last && segs.last().len() > 0 {
                r@.len() == segs.len()
            } else {
                r@.len() == segs.len() - 1
            })
            &&& forall|k: int| 0 <= k < r@.len() ==> (#[trigger] r@[k])@ == line_clean(segs[k])
            &&& final(buff)@ == (if is_last {
                Seq::<u8>::empty()
            } else {
                segs.last()
            })
        }),
{
    let ghost segs = split_nl(buff@);
    let mut parts: Vec<Vec<u8>> = Vec::new();
    let mut cur: Vec<u8> = Vec::new();
    let mut i: usize = 0;
    while i < buff.len()
        invariant
            i <= buff@.len(),
            segs == split_nl(buff@),
            split_nl(buff@.take(i as int)) =~= parts@.map_values(|l: Vec<u8>| l@).push(cur@),
        decreases buff@.len() - i,
    {
        proof {
            assert(buff@.take(i as int + 1).drop_last() =~= buff@.take(i as int));
            assert(buff@.take(i as int + 1).last() == buff@[i as int]);
        }
        if buff[i] == NL {
            parts.push(cur);
            cur = Vec::new();
            proof {
                assert(parts@.map_values(|l: Vec<u8>| l@).push(cur@) =~= split_nl(
                    buff@.take(i as int + 1),
                ));
            }
        } else {
            let b = buff[i];
            cur.push(b);
            proof {
                let m = parts@.map_values(|l: Vec<u8>| l@);
                assert(m.push(cur@) =~= split_nl(buff@.take(i as int)).update(
                    split_nl(buff@.take(i as int)).len() - 1,
                    split_nl(buff@.take(i as int)).last().push(b),
                ));
                assert(m.push(cur@) =~= split_nl(buff@.take(i as int + 1)));
            }
        }
        i += 1;
    }
    proof {
        assert(buff@.take(buff@.len() as int) =~= buff@);
        assert(segs =~= parts@.map_values(|l: Vec<u8>| l@).push(cur@));
        assert(segs.len() == parts@.len() + 1);
        assert(segs.last() == cur@);
        assert forall|k: int| 0 <= k < parts@.len() implies #[trigger] segs[k]
            == parts@[k]@ by {
            assert(segs[k] == parts@.map_values(|l: Vec<u8>| l@).push(cur@)[k]);
        }
    }
    let mut out: Vec<Vec<u8>> = Vec::new();
    let mut k: usize = 0;
    while k < parts.len()
        invariant
            k <= parts@.len(),
            segs.len() == parts@.len() + 1,
            forall|j: int| 0 <= j < parts@.len() ==> #[trigger] segs[j] == parts@[j]@,
            out@.len() == k,
            forall|j: int| 0 <= j < k ==> (#[trigger] out@[j])@ == line_clean(segs[j]),
        decreases parts@.len() - k,
    {
        let cleaned = lower_bytes(&trim_bytes(&parts[k]));
        proof {
            assert(cleaned@ == line_clean(segs[k as int]));
        }
        out.push(cleaned);
        k += 1;
    }
    if is_last {
        if cur.len() > 0 {
            let cleaned = lower_bytes(&trim_bytes(&cur));
            proof {
                assert(cleaned@ == line_clean(segs[segs.len() - 1]));
            }
            out.push(cleaned);
        }
        buff.clear();
    } else {
        *buff = cur;
    }
    out
}

/// The part of a line before its first '#', the whole line when it
/// has none.
pub open spec fn before_hash(s: Seq<u8>) -> Seq<u8>
    decreases s.len(),
{
    if s.len() == 0 {
        s
    } else {
        let p = before_hash(s.drop_last());
        if p.len() == s.len() - 1 {
            if s.last() == HASH {
                p
            } else {
                s
            }
        } else {
            p
        }
    }
}

proof fn lemma_before_hash_len(s: Seq<u8>)
    ensures
        before_hash(s).len() <= s.len(),
    decreases s.len(),
{
    if s.len() > 0 {
        lemma_before_hash_len(s.drop_last());
    }
}

proof fn lemma_before_hash_at(s: Seq<u8>, i: int)
    requires
        0 <= i <= s.len(),
        forall|j: int| 0 <= j < i ==> s[j] != HASH,
        i < s.len() ==> s[i] == HASH,
    ensures
        before_hash(s) == s.take(i),
    decreases s.len(),
{
    if s.len() == 0 {
        assert(s.take(0) =~= s);
    } else if i == s.len() {
        lemma_before_hash_at(s.drop_last(), i - 1);
        assert(s.drop_last().take(i - 1) =~= s.drop_last());
        assert(s.take(i) =~= s);
    } else if i == s.len() - 1 {
        lemma_before_hash_at(s.drop_last(), i);
        assert(s.drop_last().take(i) =~= s.drop_last());
        assert(s.take(i) =~= s.drop_last());
    } else {
        lemma_before_hash_at(s.drop_last(), i);
        lemma_before_hash_len(s.drop_last());
        assert(s.drop_last().take(i) =~= s.take(i));
    }
}

fn strip_comment(line: &Vec<u8>) -> (r: Vec<u8>)
    ensures
        r@ == before_hash(line@),
{
    let mut i: usize = 0;
    while i < line.len() && line[i] != HASH
        invariant
            i <= line@.len(),
            forall|j: int| 0 <= j < i ==> line@[j] != HASH,
        decreases line@.len() - i,
    {
        i += 1;
    }
    proof {
        lemma_before_hash_at(line@, i as int);
    }
    crate::domain::copy_prefix(line, i)
}

/// The whitespace-separated tokens of a line, in order.
pub open spec fn ws_tokens(s: Seq<u8>) -> Seq<Seq<u8>>
    decreases s.len(),
{
    if s.len() == 0 {
        Seq::<Seq<u8>>::empty()
    } else {
        let r = ws_tokens(s.drop_last());
        if is_ws(s.last()) {
            r
        } else if s.len() >= 2 && !is_ws(s[s.len() - 2]) {
            r.update(r.len() - 1, r.last().push(s.last()))
        } else {
            r.push(seq![s.last()])
        }
    }
}

fn split_tokens(line: &Vec<u8>) -> (r: Vec<Vec<u8>>)
    ensures
        r@.map_values(|t: Vec<u8>| t@) == ws_tokens(line@),
{
    let mut out: Vec<Vec<u8>> = Vec::new();
    let mut cur: Vec<u8> = Vec::new();
    let mut in_token = false;
    let mut i: usize = 0;
    while i < line.len()
        invariant
            i <= line@.len(),
            in_token == (i > 0 && !is_ws(line@[i - 1])),
            in_token ==> cur@.len() > 0,
            !in_token ==> cur@.len() == 0,
            (if in_token {
                ws_tokens(line@.take(i as int)) =~= out@.map_values(|t: Vec<u8>| t@).push(cur@)
            } else {
                ws_tokens(line@.take(i as int)) =~= out@.map_values(|t: Vec<u8>| t@)
            }),
        decreases line@.len() - i,
    {
        let b = line[i];
        proof {
            assert(line@.take(i as int + 1).drop_last() =~= line@.take(i as int));
            assert(line@.take(i as int + 1).last() == line@[i as int]);
            if i > 0 {
                assert(line@.take(i as int + 1)[i - 1] == line@[i - 1]);
            }
        }
        if is_ws_byte(b) {
            if in_token {
                out.push(cur);
                cur = Vec::new();
                in_token = false;
                proof {
                    assert(ws_tokens(line@.take(i as int + 1)) =~= out@.map_values(
                        |t: Vec<u8>| t@,
                    ));
                }
            } else {
                proof {
                    assert(ws_tokens(line@.take(i as int + 1)) =~= ws_tokens(
                        line@.take(i as int),
                    ));
                }
            }
        } else {
            let ghost m0 = out@.map_values(|t: Vec<u8>| t@);
            cur.push(b);
            proof {
                let w = ws_tokens(line@.take(i as int));
                if in_token {
                    assert(ws_tokens(line@.take(i as int + 1)) =~= w.update(
                        w.len() - 1,
                        w.last().push(b),
                    ));
                    assert(m0.push(cur@) =~= ws_tokens(line@.take(i as int + 1)));
                } else {
                    assert(ws_tokens(line@.take(i as int + 1)) =~= w.push(seq![b]));
                    assert(cur@ =~= seq![b]);
                    assert(m0.push(cur@) =~= ws_tokens(line@.take(i as int + 1)));
                }
            }
            in_token = true;
        }
        i += 1;
    }
    proof {
        assert(line@.take(line@.len() as int) =~= line@);
    }
    if in_token {
        out.push(cur);
    }
    out
}

fn is_ws_byte(b: u8) -> (r: bool)
    ensures
        r == is_ws(b),
{
    b == 9 || b == 10 || b == 11 || b == 12 || b == 13 || b == 32
}

/// The sentinel host-file tokens that never name a real domain.
pub open spec fn localhost_bytes() -> Seq<u8> {
    seq![108u8, 111u8, 99u8, 97u8, 108u8, 104u8, 111u8, 115u8, 116u8]
}

pub open spec fn zero_addr_bytes() -> Seq<u8> {
    seq![48u8, 46u8, 48u8, 46u8, 48u8, 46u8, 48u8]
}

/// A token of a feed line that counts as a blocked name.
pub open spec fn host_token_ok(t: Seq<u8>) -> bool {
    t != localhost_bytes() && t != zero_addr_bytes() && valid_domain_bytes(t)
}

/// The canonical domains one cleaned feed line contributes: its
/// comment stripped, split on whitespace, the sentinels dropped, and
/// each remaining valid name in reverse-label form.
pub open spec fn line_domains(l: Seq<u8>) -> Seq<Seq<Seq<u8>>> {
    ws_tokens(before_hash(l)).filter(|t: Seq<u8>| host_token_ok(t)).map_values(
        |t: Seq<u8>| domain_labels_of(t).reverse(),
    )
}

/// Parse one cleaned feed line into the blocked names it lists.
pub fn parse_host_line(line: &Vec<u8>) -> (r: Vec<Domain>)
    ensures
        r@.map_values(|d: Domain| d@) == line_domains(line@),
        forall|k: int| 0 <= k < r@.len() ==> (#[trigger] r@[k]).wf(),
{
    let content = strip_comment(line);
    let tokens = split_tokens(&content);
    let ghost toks = ws_tokens(before_hash(line@));
    proof {
        assert(toks == tokens@.map_values(|t: Vec<u8>| t@));
    }
    let mut out: Vec<Domain> = Vec::new();
    let mut i: usize = 0;
    let mut lh: Vec<u8> = Vec::new();
    lh.push(108);
    lh.push(111);
    lh.push(99);
    lh.push(97);
    lh.push(108);
    lh.push(104);
    lh.push(111);
    lh.push(115);
    lh.push(116);
    let mut za: Vec<u8> = Vec::new();
    za.push(48);
    za.push(46);
    za.push(48);
    za.push(46);
    za.push(48);
    za.push(46);
    za.push(48);
    proof {
        assert(lh@ =~= localhost_bytes());
        assert(za@ =~= zero_addr_bytes());
        reveal_with_fuel(Seq::filter, 2);
        assert(toks.take(0) =~= Seq::<Seq<u8>>::empty());
        assert(toks.take(0).filter(|t: Seq<u8>| host_token_ok(t)).len() == 0);
    }
    while i < tokens.len()
        invariant
            i <= tokens@.len(),
            toks == tokens@.map_values(|t: Vec<u8>| t@),
            lh@ == localhost_bytes(),
            za@ == zero_addr_bytes(),
            out@.map_values(|d: Domain| d@) =~= toks.take(i as int).filter(
                |t: Seq<u8>| host_token_ok(t),
            ).map_values(|t: Seq<u8>| domain_labels_of(t).reverse()),
            forall|k: int| 0 <= k < out@.len() ==> (#[trigger] out@[k]).wf(),
        decreases tokens@.len() - i,
    {
        let ghost fpred = |t: Seq<u8>| host_token_ok(t);
        let ghost fmap = |t: Seq<u8>| domain_labels_of(t).reverse();
        proof {
            reveal_with_fuel(Seq::filter, 2);
            assert(toks.take(i as int + 1).drop_last() =~= toks.take(i as int));
            assert(toks.take(i as int + 1).last() == toks[i as int]);
            assert(toks[i as int] == tokens@[i as int]@);
        }
        let tok = &tokens[i];
        let keep = !crate::domain::bytes_eq(tok, &lh) && !crate::domain::bytes_eq(tok, &za);
        if keep {
            match Domain::parse_bytes(tok) {
                Some(d) => {
                    proof {
                        assert(host_token_ok(tok@));
                        assert(toks.take(i as int + 1).filter(fpred) =~= toks.take(
                            i as int,
                        ).filter(fpred).push(tok@));
                    }
                    let ghost m0 = out@.map_values(|x: Domain| x@);
                    out.push(d);
                    proof {
                        assert(out@.map_values(|x: Domain| x@) =~= m0.push(d@));
                        assert(m0.push(d@) =~= toks.take(i as int + 1).filter(fpred).map_values(
                            fmap,
                        ));
                    }
                },
                None => {
                    proof {
                        assert(!host_token_ok(tok@));
                        assert(toks.take(i as int + 1).filter(fpred) =~= toks.take(
                            i as int,
                        ).filter(fpred));
                    }
                },
            }
        } else {
            proof {
                assert(!host_token_ok(tok@));
                assert(toks.take(i as int + 1).filter(fpred) =~= toks.take(i as int).filter(
                    fpred,
                ));
            }
        }
        i += 1;
    }
    proof {
        assert(toks.take(toks.len() as int) =~= toks);
    }
    out
}

/// Guards the one-refresh-at-a-time rule: a refresh begins only when
/// none is running, and an operator signal that arrives while one
/// runs is dropped without effect.
pub struct RefreshCoordinator {
    refreshing: bool,
}

impl RefreshCoordinator {
    pub closed spec fn is_refreshing(self) -> bool {
        self.refreshing
    }

    pub fn new() -> (c: RefreshCoordinator)
        ensures
            !c.is_refreshing(),
    {
        RefreshCoordinator { refreshing: false }
    }

    /// Try to take the refresh slot; fails without effect when a
    /// refresh already runs.
    pub fn try_begin(&mut self) -> (r: bool)
        ensures
            old(self).is_refreshing() ==> !r && *final(self) == *old(self),
            !old(self).is_refreshing() ==> r && final(self).is_refreshing(),
    {
        if self.refreshing {
            false
        } else {
            self.refreshing = true;
            true
        }
    }

    /// A refresh is done; the slot is free again.
    pub fn finish(&mut self)
        ensures
            !final(self).is_refreshing(),
    {
        self.refreshing = false;
    }
}

/// The operator asked for a refresh: it starts one only when no
/// refresh is already running; otherwise the signal is dropped.
pub fn signal_blocked_domain_refresh(c: &mut RefreshCoordinator) -> (started: bool)
    ensures
        old(c).is_refreshing() ==> !started && *final(c) == *old(c),
        !old(c).is_refreshing() ==> started && final(c).is_refreshing(),
{
    c.try_begin()
}

} // verus!
